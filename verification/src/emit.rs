//! Load → move → store emission of one packed group of AOD legs: the
//! occupancy, layer and counter bookkeeping of flat AOD movement planning.
//! The geometric verdicts (AOD legality of the group, its move duration)
//! come in as plain values.

use vstd::prelude::*;

use crate::ids::{AodTrapRef, AtomId, SiteId};
use crate::schedule::{
    AtomMove, MovementGroup, NeutralAtomAction, ScheduleLayer, TransferDirection, TrapTransfer, conflict_free, find_atom_conflict,
};

verus! {

broadcast use vstd::std_specs::btree::group_btree_axioms, vstd::laws_cmp::group_laws_cmp;

/// One leg of a packed group: the atom, its source and destination sites,
/// and the AOD trap (index, row and column of the source) that carries it.
#[derive(Clone, Copy, Debug, PartialEq, Eq, Structural)]
pub struct PlannedLeg {
    pub atom: AtomId,
    pub from: SiteId,
    pub to: SiteId,
    pub aod_id: u32,
    pub row: u32,
    pub col: u32,
}

/// The AOD axis whose capacity a group exceeds.
#[derive(Clone, Copy, Debug, PartialEq, Eq, Structural)]
pub enum AodAxis {
    Rows,
    Cols,
}

/// Why a group could not be emitted.
#[derive(Clone, Copy, Debug, PartialEq, Eq, Structural)]
pub enum MovementEmitError {
    /// Two legs of the group end on `site`.
    Collision { cycle: u32, site: SiteId },
    /// A leg ends on `site`, held by another atom.
    TransferIntoOccupied { cycle: u32, site: SiteId },
    /// The group needs more distinct AOD rows or columns than the target has.
    AodCapacity { axis: AodAxis, needed: u32, limit: u32 },
    /// The group's moves break the AOD motion rules at `cycle`.
    AodIllegal { cycle: u32 },
}

/// Planner state while emitting: occupancy by site and by atom, the layers
/// so far, the next cycle and the movement counters; plus the transfer
/// duration and AOD size of the target.
#[derive(Debug)]
pub struct EmitState {
    pub occ_site: std::collections::BTreeMap<u32, u32>,
    pub occ_atom: std::collections::BTreeMap<u32, u32>,
    pub out_layers: Vec<ScheduleLayer>,
    pub next_cycle: u32,
    pub rearrangement_steps: u64,
    pub rearrangement_time_us: u64,
    pub trap_transfers: u64,
    pub transfer_time_us: u64,
    pub trap_transfer_us: u64,
    pub aod_rows: u32,
    pub aod_cols: u32,
}

/// The cycle after `c`, saturating at `u32::MAX`.
pub open spec fn next_cycle_of(c: u32) -> u32 {
    if c < u32::MAX { (c + 1) as u32 } else { c }
}

/// The first destination fault among the first `k` legs, in leg order: a
/// destination already used by an earlier leg, or held by another atom.
pub open spec fn dest_fault(occ: Map<u32, u32>, group: Seq<PlannedLeg>, cycle: u32, next_cycle: u32, k: int)
    -> Option<MovementEmitError>
    decreases k,
{
    if k <= 0 {
        None
    } else {
        match dest_fault(occ, group, cycle, next_cycle, k - 1) {
            Some(e) => Some(e),
            None => {
                let leg = group[k - 1];
                if exists|j: int| 0 <= j < k - 1 && (#[trigger] group[j]).to == leg.to {
                    Some(MovementEmitError::Collision { cycle, site: leg.to })
                } else if occ.contains_key(leg.to.0) && occ[leg.to.0] != leg.atom.0 {
                    Some(MovementEmitError::TransferIntoOccupied { cycle: next_cycle, site: leg.to })
                } else {
                    None
                }
            },
        }
    }
}

/// The distinct AOD rows of the legs.
pub open spec fn leg_rows(group: Seq<PlannedLeg>) -> Set<u32> {
    group.map_values(|l: PlannedLeg| l.row).to_set()
}

/// The distinct AOD columns of the legs.
pub open spec fn leg_cols(group: Seq<PlannedLeg>) -> Set<u32> {
    group.map_values(|l: PlannedLeg| l.col).to_set()
}

/// What emitting the group returns: the first destination fault, then the
/// row and column capacity, then the AOD legality verdict.
pub open spec fn emit_outcome(occ: Map<u32, u32>, group: Seq<PlannedLeg>, cycle: u32, next_cycle: u32,
    aod_rows: u32, aod_cols: u32, aod_legal: bool) -> Result<(), MovementEmitError> {
    if group.len() == 0 {
        Ok(())
    } else {
        match dest_fault(occ, group, cycle, next_cycle, group.len() as int) {
            Some(e) => Err(e),
            None => if leg_rows(group).len() > aod_rows {
                Err(MovementEmitError::AodCapacity {
                    axis: AodAxis::Rows,
                    needed: leg_rows(group).len() as u32,
                    limit: aod_rows,
                })
            } else if leg_cols(group).len() > aod_cols {
                Err(MovementEmitError::AodCapacity {
                    axis: AodAxis::Cols,
                    needed: leg_cols(group).len() as u32,
                    limit: aod_cols,
                })
            } else if !aod_legal {
                Err(MovementEmitError::AodIllegal { cycle: next_cycle })
            } else {
                Ok(())
            },
        }
    }
}

/// Site occupancy after loading the first `k` legs: each source still held
/// by its leg's atom is vacated.
pub open spec fn loaded(occ: Map<u32, u32>, group: Seq<PlannedLeg>, k: int) -> Map<u32, u32>
    decreases k,
{
    if k <= 0 {
        occ
    } else {
        let o = loaded(occ, group, k - 1);
        let leg = group[k - 1];
        if o.contains_key(leg.from.0) && o[leg.from.0] == leg.atom.0 {
            o.remove(leg.from.0)
        } else {
            o
        }
    }
}

/// Site occupancy after storing the first `k` legs at their destinations.
pub open spec fn stored_sites(occ: Map<u32, u32>, group: Seq<PlannedLeg>, k: int) -> Map<u32, u32>
    decreases k,
{
    if k <= 0 {
        occ
    } else {
        stored_sites(occ, group, k - 1).insert(group[k - 1].to.0, group[k - 1].atom.0)
    }
}

/// Atom positions after storing the first `k` legs.
pub open spec fn stored_atoms(occ: Map<u32, u32>, group: Seq<PlannedLeg>, k: int) -> Map<u32, u32>
    decreases k,
{
    if k <= 0 {
        occ
    } else {
        stored_atoms(occ, group, k - 1).insert(group[k - 1].atom.0, group[k - 1].to.0)
    }
}

/// The AOD trap of a leg.
pub open spec fn leg_trap(l: PlannedLeg) -> AodTrapRef {
    AodTrapRef { aod_id: l.aod_id, row: l.row, col: l.col }
}

/// The load (SLM → AOD at the source) of a leg.
pub open spec fn load_action(l: PlannedLeg, us: u64) -> NeutralAtomAction {
    NeutralAtomAction::Transfer(TrapTransfer {
        atom: l.atom,
        direction: TransferDirection::SlmToAod,
        site: l.from,
        aod: leg_trap(l),
        duration_us: us,
    })
}

/// The store (AOD → SLM at the destination) of a leg.
pub open spec fn store_action(l: PlannedLeg, us: u64) -> NeutralAtomAction {
    NeutralAtomAction::Transfer(TrapTransfer {
        atom: l.atom,
        direction: TransferDirection::AodToSlm,
        site: l.to,
        aod: leg_trap(l),
        duration_us: us,
    })
}

/// The atom move of a leg.
pub open spec fn leg_move(l: PlannedLeg) -> AtomMove {
    AtomMove { atom: l.atom, from: l.from, to: l.to }
}

/// The state after a group is emitted, apart from the layers it appends.
pub open spec fn emitted_fields(old: EmitState, new: EmitState, group: Seq<PlannedLeg>, move_duration_us: u64) -> bool {
    let n = group.len() as int;
    &&& new.occ_site@ == stored_sites(loaded(old.occ_site@, group, n), group, n)
    &&& new.occ_atom@ == stored_atoms(old.occ_atom@, group, n)
    &&& new.next_cycle == next_cycle_of(next_cycle_of(next_cycle_of(old.next_cycle)))
    &&& new.trap_transfers == old.trap_transfers + 2 * n
    &&& new.transfer_time_us == old.transfer_time_us + 2 * n * old.trap_transfer_us
    &&& new.rearrangement_steps == old.rearrangement_steps + 1
    &&& new.rearrangement_time_us == old.rearrangement_time_us + move_duration_us
    &&& new.trap_transfer_us == old.trap_transfer_us
    &&& new.aod_rows == old.aod_rows
    &&& new.aod_cols == old.aod_cols
}

/// The three layers a group appends: loads at the sources, one move of
/// `move_duration_us`, stores at the destinations, at consecutive cycles.
pub open spec fn emitted_layers(old: EmitState, new: EmitState, group: Seq<PlannedLeg>, move_duration_us: u64) -> bool {
    let c0 = old.next_cycle;
    let base = old.out_layers@.len() as int;
    let us = old.trap_transfer_us;
    &&& new.out_layers@.len() == base + 3
    &&& new.out_layers@.subrange(0, base) == old.out_layers@
    &&& new.out_layers@[base].cycle == c0
    &&& new.out_layers@[base].actions@ == group.map_values(|l: PlannedLeg| load_action(l, us))
    &&& new.out_layers@[base + 1].cycle == next_cycle_of(c0)
    &&& new.out_layers@[base + 1].actions@.len() == 1
    &&& new.out_layers@[base + 1].actions@[0] matches NeutralAtomAction::Move(g)
        && g.moves@ == group.map_values(|l: PlannedLeg| leg_move(l)) && g.duration_us == move_duration_us
    &&& new.out_layers@[base + 2].cycle == next_cycle_of(next_cycle_of(c0))
    &&& new.out_layers@[base + 2].actions@ == group.map_values(|l: PlannedLeg| store_action(l, us))
}

/// With no destination fault, no destination is held by another atom once
/// the sources are vacated and the earlier legs stored.
proof fn lemma_store_clear(occ: Map<u32, u32>, group: Seq<PlannedLeg>, cycle: u32, nc: u32, k: int)
    requires
        0 <= k < group.len(),
        dest_fault(occ, group, cycle, nc, group.len() as int) is None,
    ensures
        ({
            let o = stored_sites(loaded(occ, group, group.len() as int), group, k);
            !(o.contains_key(group[k].to.0) && o[group[k].to.0] != group[k].atom.0)
        }),
{
    lemma_dest_fault_prefix(occ, group, cycle, nc, k + 1, group.len() as int);
    assert(dest_fault(occ, group, cycle, nc, k + 1) is None);
    let to = group[k].to.0;
    assert forall|j: int| 0 <= j < k implies (#[trigger] group[j]).to.0 != to by {
        assert(group[j].to != group[k].to);
    }
    lemma_stored_other(loaded(occ, group, group.len() as int), group, k, to);
    lemma_loaded_sub(occ, group, group.len() as int, to);
}

/// A clean longer prefix has clean shorter prefixes.
proof fn lemma_dest_fault_prefix(occ: Map<u32, u32>, group: Seq<PlannedLeg>, cycle: u32, nc: u32, a: int, b: int)
    requires
        0 <= a <= b,
        dest_fault(occ, group, cycle, nc, b) is None,
    ensures
        dest_fault(occ, group, cycle, nc, a) is None,
    decreases b - a,
{
    if a < b {
        assert(dest_fault(occ, group, cycle, nc, b - 1) is None);
        lemma_dest_fault_prefix(occ, group, cycle, nc, a, b - 1);
    }
}

/// Storing legs that end elsewhere leaves site `s` as it was.
proof fn lemma_stored_other(occ: Map<u32, u32>, group: Seq<PlannedLeg>, k: int, s: u32)
    requires
        0 <= k <= group.len(),
        forall|j: int| 0 <= j < k ==> (#[trigger] group[j]).to.0 != s,
    ensures
        stored_sites(occ, group, k).contains_key(s) == occ.contains_key(s),
        occ.contains_key(s) ==> stored_sites(occ, group, k)[s] == occ[s],
    decreases k,
{
    if k > 0 {
        lemma_stored_other(occ, group, k - 1, s);
    }
}

/// Loading only vacates sites: what stays held keeps its atom.
proof fn lemma_loaded_sub(occ: Map<u32, u32>, group: Seq<PlannedLeg>, k: int, s: u32)
    ensures
        loaded(occ, group, k).contains_key(s) ==> occ.contains_key(s) && loaded(occ, group, k)[s] == occ[s],
    decreases k,
{
    if k > 0 {
        lemma_loaded_sub(occ, group, k - 1, s);
    }
}

/// Emit one packed group as three layers: load every leg's atom from its
/// source into its AOD trap, move the group in one step of
/// `move_duration_us`, and store every atom at its destination; occupancy
/// and the counters follow. `cycle` is the entangle layer the group serves
/// and `aod_legal` the AOD-motion verdict on the group's moves. An empty
/// group emits nothing. On an error nothing changes.
pub fn emit_load_move_store(st: &mut EmitState, group: &Vec<PlannedLeg>, cycle: u32, move_duration_us: u64,
    aod_legal: bool) -> (r: Result<(), MovementEmitError>)
    requires
        group@.len() < u32::MAX,
        old(st).trap_transfers + 2 * group@.len() <= u64::MAX,
        old(st).transfer_time_us + 2 * group@.len() * old(st).trap_transfer_us <= u64::MAX,
        old(st).rearrangement_steps < u64::MAX,
        old(st).rearrangement_time_us + move_duration_us <= u64::MAX,
    ensures
        r == emit_outcome(old(st).occ_site@, group@, cycle, old(st).next_cycle, old(st).aod_rows, old(st).aod_cols,
            aod_legal),
        (r is Err || group@.len() == 0) ==> *final(st) == *old(st),
        (r is Ok && group@.len() > 0) ==> emitted_fields(*old(st), *final(st), group@, move_duration_us),
        (r is Ok && group@.len() > 0) ==> emitted_layers(*old(st), *final(st), group@, move_duration_us),
{
    let n = group.len();
    if n == 0 {
        return Ok(());
    }
    let ghost occ0 = st.occ_site@;
    let ghost nc0 = st.next_cycle;
    // Destinations: each used once, none held by another atom.
    let mut dests: std::collections::BTreeSet<u32> = std::collections::BTreeSet::new();
    let mut k: usize = 0;
    while k < n
        invariant
            n == group@.len(),
            k <= n,
            st.occ_site@ == occ0,
            st.next_cycle == nc0,
            dest_fault(occ0, group@, cycle, nc0, k as int) is None,
            forall|x: u32| dests@.contains(x) <==> exists|j: int| 0 <= j < k && (#[trigger] group@[j]).to.0 == x,
        decreases n - k,
    {
        let leg = group[k];
        proof {
            assert(group@[k as int] == leg);
        }
        if dests.contains(&leg.to.0) {
            proof {
                let j = choose|j: int| 0 <= j < k && (#[trigger] group@[j]).to.0 == leg.to.0;
                assert(group@[j].to == leg.to);
                assert(dest_fault(occ0, group@, cycle, nc0, k + 1) == Some(MovementEmitError::Collision { cycle, site: leg.to }));
                lemma_dest_fault_first(occ0, group@, cycle, nc0, k + 1, n as int);
            }
            return Err(MovementEmitError::Collision { cycle, site: leg.to });
        }
        dests.insert(leg.to.0);
        match st.occ_site.get(&leg.to.0) {
            Some(owner) => {
                if *owner != leg.atom.0 {
                    proof {
                        assert forall|j: int| 0 <= j < k implies (#[trigger] group@[j]).to != leg.to by {
                            assert(group@[j].to.0 != leg.to.0);
                        }
                        assert(dest_fault(occ0, group@, cycle, nc0, k + 1)
                            == Some(MovementEmitError::TransferIntoOccupied { cycle: nc0, site: leg.to }));
                        lemma_dest_fault_first(occ0, group@, cycle, nc0, k + 1, n as int);
                    }
                    return Err(MovementEmitError::TransferIntoOccupied { cycle: st.next_cycle, site: leg.to });
                }
            },
            None => {},
        }
        proof {
            assert forall|j: int| 0 <= j < k implies (#[trigger] group@[j]).to != leg.to by {
                assert(group@[j].to.0 != leg.to.0);
            }
            assert(dest_fault(occ0, group@, cycle, nc0, k + 1) is None);
        }
        k += 1;
    }
    // Capacity: distinct rows and columns.
    let mut rows: std::collections::BTreeSet<u32> = std::collections::BTreeSet::new();
    let mut cols: std::collections::BTreeSet<u32> = std::collections::BTreeSet::new();
    let mut k: usize = 0;
    while k < n
        invariant
            n == group@.len(),
            k <= n,
            rows@ == leg_rows(group@.take(k as int)),
            cols@ == leg_cols(group@.take(k as int)),
        decreases n - k,
    {
        proof {
            assert(group@.take(k + 1) =~= group@.take(k as int).push(group@[k as int]));
            assert(group@.take(k + 1).map_values(|l: PlannedLeg| l.row)
                =~= group@.take(k as int).map_values(|l: PlannedLeg| l.row).push(group@[k as int].row));
            assert(group@.take(k + 1).map_values(|l: PlannedLeg| l.col)
                =~= group@.take(k as int).map_values(|l: PlannedLeg| l.col).push(group@[k as int].col));
            group@.take(k as int).map_values(|l: PlannedLeg| l.row).lemma_push_to_set_commute(group@[k as int].row);
            group@.take(k as int).map_values(|l: PlannedLeg| l.col).lemma_push_to_set_commute(group@[k as int].col);
        }
        rows.insert(group[k].row);
        cols.insert(group[k].col);
        k += 1;
    }
    proof {
        assert(group@.take(n as int) =~= group@);
        group@.map_values(|l: PlannedLeg| l.row).lemma_cardinality_of_set();
        group@.map_values(|l: PlannedLeg| l.col).lemma_cardinality_of_set();
    }
    let n_rows = rows.len();
    let n_cols = cols.len();
    if n_rows > st.aod_rows as usize {
        return Err(MovementEmitError::AodCapacity { axis: AodAxis::Rows, needed: n_rows as u32, limit: st.aod_rows });
    }
    if n_cols > st.aod_cols as usize {
        return Err(MovementEmitError::AodCapacity { axis: AodAxis::Cols, needed: n_cols as u32, limit: st.aod_cols });
    }
    if !aod_legal {
        return Err(MovementEmitError::AodIllegal { cycle: st.next_cycle });
    }
    let us = st.trap_transfer_us;
    let mut load: Vec<NeutralAtomAction> = Vec::new();
    let mut moves: Vec<AtomMove> = Vec::new();
    let mut store: Vec<NeutralAtomAction> = Vec::new();
    let mut k: usize = 0;
    while k < n
        invariant
            n == group@.len(),
            k <= n,
            load@ == group@.take(k as int).map_values(|l: PlannedLeg| load_action(l, us)),
            moves@ == group@.take(k as int).map_values(|l: PlannedLeg| leg_move(l)),
            store@ == group@.take(k as int).map_values(|l: PlannedLeg| store_action(l, us)),
        decreases n - k,
    {
        let leg = group[k];
        let aod = AodTrapRef { aod_id: leg.aod_id, row: leg.row, col: leg.col };
        load.push(NeutralAtomAction::Transfer(TrapTransfer {
            atom: leg.atom,
            direction: TransferDirection::SlmToAod,
            site: leg.from,
            aod,
            duration_us: us,
        }));
        moves.push(AtomMove { atom: leg.atom, from: leg.from, to: leg.to });
        store.push(NeutralAtomAction::Transfer(TrapTransfer {
            atom: leg.atom,
            direction: TransferDirection::AodToSlm,
            site: leg.to,
            aod,
            duration_us: us,
        }));
        proof {
            assert(group@.take(k + 1) =~= group@.take(k as int).push(leg));
            assert(load@ =~= group@.take(k + 1).map_values(|l: PlannedLeg| load_action(l, us)));
            assert(moves@ =~= group@.take(k + 1).map_values(|l: PlannedLeg| leg_move(l)));
            assert(store@ =~= group@.take(k + 1).map_values(|l: PlannedLeg| store_action(l, us)));
        }
        k += 1;
    }
    proof {
        assert(group@.take(n as int) =~= group@);
    }
    let ghost st0 = *st;
    // Load: vacate each source still held by its atom.
    let mut k: usize = 0;
    while k < n
        invariant
            n == group@.len(),
            k <= n,
            st.occ_site@ == loaded(st0.occ_site@, group@, k as int),
            st.occ_atom == st0.occ_atom,
            st.out_layers == st0.out_layers,
            st.next_cycle == st0.next_cycle,
            st.rearrangement_steps == st0.rearrangement_steps,
            st.rearrangement_time_us == st0.rearrangement_time_us,
            st.trap_transfers == st0.trap_transfers,
            st.transfer_time_us == st0.transfer_time_us,
            st.trap_transfer_us == st0.trap_transfer_us,
            st.aod_rows == st0.aod_rows,
            st.aod_cols == st0.aod_cols,
        decreases n - k,
    {
        let leg = group[k];
        let held = match st.occ_site.get(&leg.from.0) {
            Some(a) => *a == leg.atom.0,
            None => false,
        };
        if held {
            st.occ_site.remove(&leg.from.0);
        }
        k += 1;
    }
    let c0 = st.next_cycle;
    let nl = n as u64;
    proof {
        assert(2 * n * us == n * us + n * us) by (nonlinear_arith);
        assert(nl * us <= 2 * n * us) by (nonlinear_arith)
            requires nl == n, n >= 0, us >= 0;
    }
    st.trap_transfers = st.trap_transfers + nl;
    st.transfer_time_us = st.transfer_time_us + nl * us;
    st.out_layers.push(ScheduleLayer { cycle: c0, actions: load });
    st.next_cycle = if st.next_cycle < u32::MAX { st.next_cycle + 1 } else { st.next_cycle };
    let c1 = st.next_cycle;
    st.rearrangement_steps = st.rearrangement_steps + 1;
    st.rearrangement_time_us = st.rearrangement_time_us + move_duration_us;
    st.out_layers.push(ScheduleLayer {
        cycle: c1,
        actions: vec![NeutralAtomAction::Move(MovementGroup { moves, duration_us: move_duration_us })],
    });
    st.next_cycle = if st.next_cycle < u32::MAX { st.next_cycle + 1 } else { st.next_cycle };
    let c2 = st.next_cycle;
    // Store: every destination is free or already the mover's.
    let ghost occ1 = st.occ_site@;
    let ghost atoms0 = st.occ_atom@;
    let ghost old_layers = st.out_layers;
    let mut k: usize = 0;
    while k < n
        invariant
            n == group@.len(),
            k <= n,
            occ1 == loaded(st0.occ_site@, group@, n as int),
            dest_fault(st0.occ_site@, group@, cycle, st0.next_cycle, n as int) is None,
            st.occ_site@ == stored_sites(occ1, group@, k as int),
            st.occ_atom@ == stored_atoms(atoms0, group@, k as int),
            atoms0 == st0.occ_atom@,
            st.out_layers == old_layers,
            st.next_cycle == c2,
            st.rearrangement_steps == st0.rearrangement_steps + 1,
            st.rearrangement_time_us == st0.rearrangement_time_us + move_duration_us,
            st.trap_transfers == st0.trap_transfers + nl,
            st.transfer_time_us == st0.transfer_time_us + nl * us,
            st.trap_transfer_us == st0.trap_transfer_us,
            st.aod_rows == st0.aod_rows,
            st.aod_cols == st0.aod_cols,
            us == st0.trap_transfer_us,
            nl == n,
            st0.trap_transfers + 2 * n <= u64::MAX,
            st0.transfer_time_us + 2 * n * us <= u64::MAX,
        decreases n - k,
    {
        let leg = group[k];
        match st.occ_site.get(&leg.to.0) {
            Some(owner) => {
                if *owner != leg.atom.0 {
                    proof {
                        lemma_store_clear(st0.occ_site@, group@, cycle, st0.next_cycle, k as int);
                        assert(false);
                    }
                    return Err(MovementEmitError::TransferIntoOccupied { cycle: c2, site: leg.to });
                }
            },
            None => {},
        }
        st.occ_site.insert(leg.to.0, leg.atom.0);
        st.occ_atom.insert(leg.atom.0, leg.to.0);
        k += 1;
    }
    st.trap_transfers = st.trap_transfers + nl;
    st.transfer_time_us = st.transfer_time_us + nl * us;
    st.out_layers.push(ScheduleLayer { cycle: c2, actions: store });
    st.next_cycle = if st.next_cycle < u32::MAX { st.next_cycle + 1 } else { st.next_cycle };
    proof {
        let base = st0.out_layers@.len();
        assert(st.out_layers@.subrange(0, base as int) =~= st0.out_layers@);
    }
    Ok(())
}

/// A fault in a prefix is the fault of every longer prefix.
proof fn lemma_dest_fault_first(occ: Map<u32, u32>, group: Seq<PlannedLeg>, cycle: u32, nc: u32, a: int, b: int)
    requires
        0 <= a <= b,
        dest_fault(occ, group, cycle, nc, a) is Some,
    ensures
        dest_fault(occ, group, cycle, nc, b) == dest_fault(occ, group, cycle, nc, a),
    decreases b - a,
{
    if a < b {
        lemma_dest_fault_first(occ, group, cycle, nc, a, b - 1);
    }
}


/// An action that stays in a planned layer: everything but moves and
/// transfers, which the planner replaces by its own stages.
pub open spec fn kept_action(a: NeutralAtomAction) -> bool {
    !(a is Move || a is Transfer)
}

/// The actions of an input layer that a planned layer keeps, in order.
pub open spec fn kept_actions(acts: Seq<NeutralAtomAction>) -> Seq<NeutralAtomAction> {
    acts.filter(|a: NeutralAtomAction| kept_action(a))
}

/// Append an input layer's actions, moves and transfers dropped, as a
/// layer at the next cycle. An entangle layer is refused with an atom it
/// touches twice; another layer is appended only if something is kept.
pub fn push_planned_layer(st: &mut EmitState, layer: ScheduleLayer, entangling: bool) -> (r: Result<(), u32>)
    ensures
        r is Err <==> entangling && !conflict_free(kept_actions(layer.actions@)),
        (r is Err || (!entangling && kept_actions(layer.actions@).len() == 0)) ==> *final(st) == *old(st),
        (r is Ok && (entangling || kept_actions(layer.actions@).len() > 0)) ==> {
            &&& final(st).out_layers@.len() == old(st).out_layers@.len() + 1
            &&& final(st).out_layers@.subrange(0, old(st).out_layers@.len() as int) == old(st).out_layers@
            &&& final(st).out_layers@.last().cycle == old(st).next_cycle
            &&& final(st).out_layers@.last().actions@ == kept_actions(layer.actions@)
            &&& final(st).next_cycle == next_cycle_of(old(st).next_cycle)
            &&& final(st).occ_site == old(st).occ_site
            &&& final(st).occ_atom == old(st).occ_atom
            &&& final(st).rearrangement_steps == old(st).rearrangement_steps
            &&& final(st).rearrangement_time_us == old(st).rearrangement_time_us
            &&& final(st).trap_transfers == old(st).trap_transfers
            &&& final(st).transfer_time_us == old(st).transfer_time_us
            &&& final(st).trap_transfer_us == old(st).trap_transfer_us
            &&& final(st).aod_rows == old(st).aod_rows
            &&& final(st).aod_cols == old(st).aod_cols
        },
{
    let ghost acts = layer.actions@;
    let mut rest = layer.actions;
    let mut kept: Vec<NeutralAtomAction> = Vec::new();
    let ghost mut k: int = 0;
    proof {
        assert(acts.skip(0) =~= acts);
        reveal(Seq::filter);
        assert(acts.take(0).filter(|a: NeutralAtomAction| kept_action(a)) =~= Seq::<NeutralAtomAction>::empty());
    }
    while rest.len() > 0
        invariant
            0 <= k <= acts.len(),
            rest@ == acts.skip(k),
            kept@ == kept_actions(acts.take(k)),
        decreases rest.len(),
    {
        let a = rest.remove(0);
        proof {
            assert(a == acts[k]);
            assert(acts.take(k + 1).drop_last() =~= acts.take(k));
            assert(acts.take(k + 1).last() == a);
            reveal(Seq::filter);
        }
        let keep = match &a {
            NeutralAtomAction::Move(_) => false,
            NeutralAtomAction::Transfer(_) => false,
            _ => true,
        };
        if keep {
            kept.push(a);
        }
        proof {
            assert(rest@ =~= acts.skip(k + 1));
            k = k + 1;
        }
    }
    proof {
        assert(acts.take(k) =~= acts);
    }
    if entangling {
        let empty: Vec<NeutralAtomAction> = Vec::new();
        let hit = find_atom_conflict(&kept, &empty);
        proof {
            assert(kept@ + empty@ =~= kept@);
        }
        if let Some(atom) = hit {
            return Err(atom);
        }
    } else if kept.len() == 0 {
        return Ok(());
    }
    let c = st.next_cycle;
    st.out_layers.push(ScheduleLayer { cycle: c, actions: kept });
    st.next_cycle = if c < u32::MAX { c + 1 } else { c };
    proof {
        assert(st.out_layers@.subrange(0, old(st).out_layers@.len() as int) =~= old(st).out_layers@);
    }
    Ok(())
}

/// How many of the actions are transfers.
pub open spec fn transfer_actions(acts: Seq<NeutralAtomAction>) -> int
    decreases acts.len(),
{
    if acts.len() == 0 { 0 } else { transfer_actions(acts.drop_last()) + (if acts.last() is Transfer { 1int } else { 0int }) }
}

/// How many of the actions are moves.
pub open spec fn move_actions(acts: Seq<NeutralAtomAction>) -> int
    decreases acts.len(),
{
    if acts.len() == 0 { 0 } else { move_actions(acts.drop_last()) + (if acts.last() is Move { 1int } else { 0int }) }
}

/// Transfer actions over all layers.
pub open spec fn layers_transfers(layers: Seq<ScheduleLayer>) -> int
    decreases layers.len(),
{
    if layers.len() == 0 { 0 } else { layers_transfers(layers.drop_last()) + transfer_actions(layers.last().actions@) }
}

/// Move actions over all layers.
pub open spec fn layers_moves(layers: Seq<ScheduleLayer>) -> int
    decreases layers.len(),
{
    if layers.len() == 0 { 0 } else { layers_moves(layers.drop_last()) + move_actions(layers.last().actions@) }
}

proof fn lemma_count_transfers(acts: Seq<NeutralAtomAction>)
    requires
        forall|i: int| 0 <= i < acts.len() ==> #[trigger] acts[i] is Transfer,
    ensures
        transfer_actions(acts) == acts.len(),
        move_actions(acts) == 0,
    decreases acts.len(),
{
    if acts.len() > 0 {
        lemma_count_transfers(acts.drop_last());
    }
}

proof fn lemma_count_kept(acts: Seq<NeutralAtomAction>)
    requires
        forall|i: int| 0 <= i < acts.len() ==> kept_action(#[trigger] acts[i]),
    ensures
        transfer_actions(acts) == 0,
        move_actions(acts) == 0,
    decreases acts.len(),
{
    if acts.len() > 0 {
        lemma_count_kept(acts.drop_last());
    }
}

proof fn lemma_layers_push(layers: Seq<ScheduleLayer>, l: ScheduleLayer)
    ensures
        layers_transfers(layers.push(l)) == layers_transfers(layers) + transfer_actions(l.actions@),
        layers_moves(layers.push(l)) == layers_moves(layers) + move_actions(l.actions@),
{
    assert(layers.push(l).drop_last() =~= layers);
}

/// The movement counters follow the layers: emitting a group adds as many
/// transfer actions to the layers as to `trap_transfers`, each of
/// `trap_transfer_us`, and one move action per rearrangement step.
pub proof fn lemma_emit_counts(old: EmitState, new: EmitState, group: Seq<PlannedLeg>, move_duration_us: u64)
    requires
        group.len() > 0,
        emitted_fields(old, new, group, move_duration_us),
        emitted_layers(old, new, group, move_duration_us),
    ensures
        layers_transfers(new.out_layers@) - layers_transfers(old.out_layers@) == new.trap_transfers - old.trap_transfers,
        layers_moves(new.out_layers@) - layers_moves(old.out_layers@) == new.rearrangement_steps - old.rearrangement_steps,
        new.transfer_time_us - old.transfer_time_us == (new.trap_transfers - old.trap_transfers) * old.trap_transfer_us,
{
    let base = old.out_layers@.len() as int;
    let l = new.out_layers@;
    let us = old.trap_transfer_us;
    assert(l.subrange(0, base + 1) =~= old.out_layers@.push(l[base]));
    assert(l.subrange(0, base + 2) =~= l.subrange(0, base + 1).push(l[base + 1]));
    assert(l =~= l.subrange(0, base + 2).push(l[base + 2]));
    lemma_layers_push(old.out_layers@, l[base]);
    lemma_layers_push(l.subrange(0, base + 1), l[base + 1]);
    lemma_layers_push(l.subrange(0, base + 2), l[base + 2]);
    lemma_count_transfers(group.map_values(|x: PlannedLeg| load_action(x, us)));
    lemma_count_transfers(group.map_values(|x: PlannedLeg| store_action(x, us)));
    let mv = l[base + 1].actions@;
    assert(mv.drop_last() =~= Seq::<NeutralAtomAction>::empty());
    assert(transfer_actions(mv.drop_last()) == 0 && move_actions(mv.drop_last()) == 0);
    assert(mv.last() is Move);
    assert(transfer_actions(mv) == 0);
    assert(move_actions(mv) == 1);
    let ld = group.map_values(|x: PlannedLeg| load_action(x, us));
    let sd = group.map_values(|x: PlannedLeg| store_action(x, us));
    assert(l[base].actions@ == ld);
    assert(l[base + 2].actions@ == sd);
    assert(transfer_actions(ld) == group.len() && move_actions(ld) == 0);
    assert(transfer_actions(sd) == group.len() && move_actions(sd) == 0);
    assert(2 * group.len() * us == (2 * group.len()) * us) by (nonlinear_arith);
}

/// The counters follow the layers: a planned layer adds no transfer and no
/// move, to the layers or the counters.
pub proof fn lemma_planned_layer_counts(old: EmitState, new: EmitState, acts: Seq<NeutralAtomAction>)
    requires
        new.out_layers@.len() == old.out_layers@.len() + 1,
        new.out_layers@.subrange(0, old.out_layers@.len() as int) == old.out_layers@,
        new.out_layers@.last().actions@ == kept_actions(acts),
    ensures
        layers_transfers(new.out_layers@) == layers_transfers(old.out_layers@),
        layers_moves(new.out_layers@) == layers_moves(old.out_layers@),
{
    let l = new.out_layers@;
    assert(l =~= old.out_layers@.push(l.last()));
    lemma_layers_push(old.out_layers@, l.last());
    assert forall|i: int| 0 <= i < kept_actions(acts).len() implies kept_action(#[trigger] kept_actions(acts)[i]) by {
        acts.lemma_filter_pred(|a: NeutralAtomAction| kept_action(a), i);
    }
    lemma_count_kept(kept_actions(acts));
}

} // verus!
