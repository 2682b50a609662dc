//! Schedule-legality rules of the neutral-atom dialect that depend on no
//! geometry: transfer payloads, cycle ordering across layers, round
//! barriers, measure/reset/reuse discipline, AOD trap bindings, and the
//! per-layer claims of atoms and sites.

use vstd::prelude::*;

verus! {

broadcast use vstd::std_specs::btree::group_btree_axioms, vstd::laws_cmp::group_laws_cmp;

/// Direction of a trap transfer.
#[derive(Clone, Copy, Debug, PartialEq, Eq, Structural)]
pub enum TransferDirection {
    SlmToAod,
    AodToSlm,
}

/// Trap-transfer payload. Transfers are visible to occupancy and accounting.
#[derive(Clone, Copy, Debug, PartialEq, Eq, Structural)]
pub struct TransferSpec {
    pub atom: u32,
    pub site: u32,
    pub aod_id: u32,
    pub row: u32,
    pub col: u32,
    pub direction: TransferDirection,
    pub duration_us: u64,
}

/// What one action of a layer does to an atom, for ordering checks.
#[derive(Clone, Copy, Debug, PartialEq, Eq, Structural)]
pub enum AtomEvent {
    Measure(u32),
    Reset(u32),
    Use(u32),
}

/// The ordering-relevant facts of one layer.
#[derive(Clone, Debug)]
pub struct LayerFacts {
    pub cycle: u32,
    pub has_wait: bool,
    pub events: Vec<AtomEvent>,
}

/// Where an atom stands in the measure / reset discipline.
#[derive(Clone, Copy, Debug, PartialEq, Eq, Structural)]
pub enum AtomPhase {
    /// Measured and not yet reset.
    Measured { cycle: u32 },
    /// Reset completed; the atom may be reused in a later cycle.
    Reset { cycle: u32 },
}

/// Schedule-legality problems that need no geometry.
#[derive(Clone, Copy, Debug, PartialEq, Eq, Structural)]
pub enum OrderingError {
    NonMonotonicCycles { previous_cycle: u32, cycle: u32 },
    RoundBarrierCycleOrder { wait_cycle: u32, after_cycle: u32 },
    ResetBeforeMeasure { atom: u32, reset_cycle: u32, measure_cycle: u32 },
    MeasureUseSameCycle { cycle: u32, atom: u32 },
    ResetUseSameCycle { cycle: u32, atom: u32 },
    MeasureReuseWithoutReset { atom: u32, measure_cycle: u32, reuse_cycle: u32 },
    AodRefMismatch {
        cycle: u32,
        atom: u32,
        aod_id: u32,
        row: u32,
        col: u32,
        bound_aod_id: u32,
        bound_row: u32,
        bound_col: u32,
    },
}

/// Measure / reset state: each atom's phase, and the atoms measured or reset
/// in the current cycle.
pub struct PhaseState {
    pub phase: Map<u32, AtomPhase>,
    pub measured: Set<u32>,
    pub reset: Set<u32>,
}

/// The cycle a phase was entered in.
pub open spec fn phase_cycle(p: AtomPhase) -> u32 {
    match p {
        AtomPhase::Measured { cycle } => cycle,
        AtomPhase::Reset { cycle } => cycle,
    }
}

/// One atom event at `cycle`.
pub open spec fn event_step(st: PhaseState, cycle: u32, ev: AtomEvent) -> Result<PhaseState, OrderingError> {
    match ev {
        AtomEvent::Measure(a) => {
            if st.phase.contains_key(a) && st.phase[a] == (AtomPhase::Reset { cycle }) {
                Err(OrderingError::ResetBeforeMeasure { atom: a, reset_cycle: cycle, measure_cycle: cycle })
            } else {
                Ok(PhaseState {
                    phase: st.phase.insert(a, AtomPhase::Measured { cycle }),
                    measured: st.measured.insert(a),
                    reset: st.reset,
                })
            }
        },
        AtomEvent::Reset(a) => {
            if st.phase.contains_key(a) && st.phase[a] is Measured && cycle < phase_cycle(st.phase[a]) {
                Err(OrderingError::ResetBeforeMeasure { atom: a, reset_cycle: cycle, measure_cycle: phase_cycle(st.phase[a]) })
            } else {
                Ok(PhaseState {
                    phase: st.phase.insert(a, AtomPhase::Reset { cycle }),
                    measured: st.measured.remove(a),
                    reset: st.reset.insert(a),
                })
            }
        },
        AtomEvent::Use(a) => {
            if st.measured.contains(a) {
                Err(OrderingError::MeasureUseSameCycle { cycle, atom: a })
            } else if st.reset.contains(a) {
                Err(OrderingError::ResetUseSameCycle { cycle, atom: a })
            } else if st.phase.contains_key(a) {
                match st.phase[a] {
                    AtomPhase::Measured { cycle: mc } => Err(
                        OrderingError::MeasureReuseWithoutReset { atom: a, measure_cycle: mc, reuse_cycle: cycle },
                    ),
                    AtomPhase::Reset { cycle: rc } => if cycle <= rc {
                        Err(OrderingError::ResetUseSameCycle { cycle, atom: a })
                    } else {
                        Ok(PhaseState { phase: st.phase.remove(a), measured: st.measured, reset: st.reset })
                    },
                }
            } else {
                Ok(st)
            }
        },
    }
}

/// The events of one layer, in order, stopping at the first violation.
pub open spec fn events_run(st: PhaseState, cycle: u32, evs: Seq<AtomEvent>) -> Result<PhaseState, OrderingError>
    decreases evs.len(),
{
    if evs.len() == 0 {
        Ok(st)
    } else {
        match event_step(st, cycle, evs[0]) {
            Err(e) => Err(e),
            Ok(s2) => events_run(s2, cycle, evs.subrange(1, evs.len() as int)),
        }
    }
}

/// Entering a layer: the per-cycle sets start empty when the cycle changes.
pub open spec fn enter_layer(st: PhaseState, last: Option<u32>, cycle: u32) -> PhaseState {
    if last != Some(cycle) {
        PhaseState { phase: st.phase, measured: Set::empty(), reset: Set::empty() }
    } else {
        st
    }
}

/// All layers' events in order, stopping at the first violation.
pub open spec fn layers_run(st: PhaseState, last: Option<u32>, layers: Seq<LayerFacts>) -> Result<PhaseState, OrderingError>
    decreases layers.len(),
{
    if layers.len() == 0 {
        Ok(st)
    } else {
        let l = layers[0];
        match events_run(enter_layer(st, last, l.cycle), l.cycle, l.events@) {
            Err(e) => Err(e),
            Ok(s2) => layers_run(s2, Some(l.cycle), layers.subrange(1, layers.len() as int)),
        }
    }
}

/// Layer `k` is the first whose cycle is lower than its predecessor's.
pub open spec fn first_decrease(layers: Seq<LayerFacts>, k: int) -> bool {
    &&& 0 < k < layers.len()
    &&& layers[k].cycle < layers[k - 1].cycle
    &&& forall|q: int| 0 < q < k ==> layers[q].cycle >= #[trigger] layers[q - 1].cycle
}

/// Layer `j` is not after wait layer `i` in cycle order.
pub open spec fn barrier_breach(layers: Seq<LayerFacts>, i: int, j: int) -> bool {
    &&& 0 <= i < j < layers.len()
    &&& layers[i].has_wait
    &&& layers[j].cycle <= layers[i].cycle
}

/// `(i, j)` is the first breach scanning wait layers `i` in order and, for
/// each, later layers `j` in order.
pub open spec fn first_breach(layers: Seq<LayerFacts>, i: int, j: int) -> bool {
    &&& barrier_breach(layers, i, j)
    &&& forall|i2: int, j2: int| #[trigger] barrier_breach(layers, i2, j2) ==> i < i2 || (i == i2 && j <= j2)
}

/// The ordering result: first a cycle decrease, then a round-barrier breach,
/// then the measure / reset / reuse discipline over all events in order.
pub open spec fn ordering_ok(layers: Seq<LayerFacts>, r: Result<(), OrderingError>) -> bool {
    if exists|k: int| first_decrease(layers, k) {
        exists|k: int| first_decrease(layers, k) && r == Err::<(), OrderingError>(OrderingError::NonMonotonicCycles {
            previous_cycle: layers[k - 1].cycle,
            cycle: layers[k].cycle,
        })
    } else if exists|i: int, j: int| barrier_breach(layers, i, j) {
        exists|i: int, j: int| first_breach(layers, i, j) && r == Err::<(), OrderingError>(
            OrderingError::RoundBarrierCycleOrder { wait_cycle: layers[i].cycle, after_cycle: layers[j].cycle },
        )
    } else {
        match layers_run(PhaseState { phase: Map::empty(), measured: Set::empty(), reset: Set::empty() }, None, layers) {
            Ok(_) => r is Ok,
            Err(e) => r == Err::<(), OrderingError>(e),
        }
    }
}


/// The phase state held by the exec maps and sets.
pub open spec fn state_of(phase: Map<u32, AtomPhase>, measured: Set<u32>, reset: Set<u32>) -> PhaseState {
    PhaseState { phase, measured, reset }
}

/// Check cycle order, round barriers and the measure / reset / reuse
/// discipline of a schedule's layers; the first violation is reported.
pub fn verify_schedule_ordering(layers: &Vec<LayerFacts>) -> (r: Result<(), OrderingError>)
    ensures
        ordering_ok(layers@, r),
{
    let n = layers.len();
    // Cycles never decrease.
    let mut k: usize = 1;
    while k < n
        invariant
            n == layers@.len(),
            1 <= k,
            forall|q: int| 0 < q < k && q < n ==> layers@[q].cycle >= #[trigger] layers@[q - 1].cycle,
        decreases n - k,
    {
        if layers[k].cycle < layers[k - 1].cycle {
            proof {
                assert(first_decrease(layers@, k as int));
            }
            return Err(OrderingError::NonMonotonicCycles { previous_cycle: layers[k - 1].cycle, cycle: layers[k].cycle });
        }
        k += 1;
    }
    proof {
        assert forall|k: int| !first_decrease(layers@, k) by {
            if first_decrease(layers@, k) {
                assert(layers@[k].cycle >= layers@[k - 1].cycle);
            }
        }
    }
    // Nothing after a wait may share or precede its cycle.
    let mut i: usize = 0;
    while i < n
        invariant
            n == layers@.len(),
            i <= n,
            forall|k: int| !first_decrease(layers@, k),
            forall|i2: int, j2: int| #[trigger] barrier_breach(layers@, i2, j2) ==> i2 >= i,
        decreases n - i,
    {
        if layers[i].has_wait {
            let mut j: usize = i + 1;
            while j < n
                invariant
                    n == layers@.len(),
                    i < n,
                    i + 1 <= j,
                    layers@[i as int].has_wait,
                forall|k: int| !first_decrease(layers@, k),
                    forall|i2: int, j2: int| #[trigger] barrier_breach(layers@, i2, j2) ==> i2 > i || (i2 == i && j2 >= j),
                decreases n - j,
            {
                if layers[j].cycle <= layers[i].cycle {
                    proof {
                        assert(barrier_breach(layers@, i as int, j as int));
                        assert(first_breach(layers@, i as int, j as int));
                    }
                    return Err(OrderingError::RoundBarrierCycleOrder { wait_cycle: layers[i].cycle, after_cycle: layers[j].cycle });
                }
                j += 1;
            }
        }
        i += 1;
    }
    proof {
        assert forall|i2: int, j2: int| !barrier_breach(layers@, i2, j2) by {
            if barrier_breach(layers@, i2, j2) {
                assert(i2 >= n);
            }
        }
    }
    // Measure / reset / reuse discipline, event by event.
    let ghost init = PhaseState { phase: Map::empty(), measured: Set::empty(), reset: Set::empty() };
    let mut phase: std::collections::BTreeMap<u32, AtomPhase> = std::collections::BTreeMap::new();
    let mut measured: std::collections::BTreeSet<u32> = std::collections::BTreeSet::new();
    let mut reset: std::collections::BTreeSet<u32> = std::collections::BTreeSet::new();
    let mut last: Option<u32> = None;
    proof {
        assert(layers@.subrange(0, n as int) =~= layers@);
        assert(state_of(phase@, measured@, reset@) == init);
    }
    let mut t: usize = 0;
    while t < n
        invariant
            n == layers@.len(),
            t <= n,
            init == (PhaseState { phase: Map::empty(), measured: Set::empty(), reset: Set::empty() }),
            forall|k: int| !first_decrease(layers@, k),
            forall|i2: int, j2: int| !barrier_breach(layers@, i2, j2),
            layers_run(init, None, layers@) == layers_run(state_of(phase@, measured@, reset@), last, layers@.subrange(t as int, n as int)),
        decreases n - t,
    {
        let layer = &layers[t];
        proof {
            let rest = layers@.subrange(t as int, n as int);
            assert(rest[0] == layers@[t as int]);
            assert(rest.subrange(1, rest.len() as int) =~= layers@.subrange(t + 1, n as int));
        }
        if last != Some(layer.cycle) {
            measured = std::collections::BTreeSet::new();
            reset = std::collections::BTreeSet::new();
            last = Some(layer.cycle);
        }
        let c = layer.cycle;
        let ghost evs = layer.events@;
        proof {
            assert(evs.subrange(0, evs.len() as int) =~= evs);
        }
        let mut m: usize = 0;
        while m < layer.events.len()
            invariant
                n == layers@.len(),
                t < n,
                layer == layers@[t as int],
                c == layer.cycle,
                evs == layer.events@,
                last == Some(c),
                m <= evs.len(),
                init == (PhaseState { phase: Map::empty(), measured: Set::empty(), reset: Set::empty() }),
                forall|k: int| !first_decrease(layers@, k),
                forall|i2: int, j2: int| !barrier_breach(layers@, i2, j2),

                layers_run(init, None, layers@) == match events_run(state_of(phase@, measured@, reset@), c, evs.subrange(m as int, evs.len() as int)) {
                    Err(e) => Err(e),
                    Ok(s2) => layers_run(s2, Some(c), layers@.subrange(t + 1, n as int)),
                },
            decreases evs.len() - m,
        {
            let ev = layer.events[m];
            proof {
                let rest = evs.subrange(m as int, evs.len() as int);
                assert(rest[0] == ev);
                assert(rest.subrange(1, rest.len() as int) =~= evs.subrange(m + 1, evs.len() as int));
            }
            let ghost st = state_of(phase@, measured@, reset@);
            match ev {
                AtomEvent::Measure(a) => {
                    match phase.get(&a) {
                        Some(p) => {
                            match *p {
                                AtomPhase::Reset { cycle: rc } => {
                                    if c == rc {
                                        proof {
                                            assert(event_step(st, c, ev) == Err::<PhaseState, OrderingError>(
                                                OrderingError::ResetBeforeMeasure { atom: a, reset_cycle: rc, measure_cycle: c }));
                                            assert(events_run(st, c, evs.subrange(m as int, evs.len() as int)) == Err::<PhaseState, OrderingError>(OrderingError::ResetBeforeMeasure { atom: a, reset_cycle: rc, measure_cycle: c }));
                                            assert(layers_run(init, None, layers@) == Err::<PhaseState, OrderingError>(OrderingError::ResetBeforeMeasure { atom: a, reset_cycle: rc, measure_cycle: c }));
                                        }
                                        return Err(OrderingError::ResetBeforeMeasure { atom: a, reset_cycle: rc, measure_cycle: c });
                                    }
                                },
                                _ => {},
                            }
                        },
                        None => {},
                    }
                    phase.insert(a, AtomPhase::Measured { cycle: c });
                    measured.insert(a);
                },
                AtomEvent::Reset(a) => {
                    match phase.get(&a) {
                        Some(p) => {
                            match *p {
                                AtomPhase::Measured { cycle: mc } => {
                                    if c < mc {
                                        proof {
                                            assert(event_step(st, c, ev) == Err::<PhaseState, OrderingError>(
                                                OrderingError::ResetBeforeMeasure { atom: a, reset_cycle: c, measure_cycle: mc }));
                                            assert(events_run(st, c, evs.subrange(m as int, evs.len() as int)) == Err::<PhaseState, OrderingError>(OrderingError::ResetBeforeMeasure { atom: a, reset_cycle: c, measure_cycle: mc }));
                                            assert(layers_run(init, None, layers@) == Err::<PhaseState, OrderingError>(OrderingError::ResetBeforeMeasure { atom: a, reset_cycle: c, measure_cycle: mc }));
                                        }
                                        return Err(OrderingError::ResetBeforeMeasure { atom: a, reset_cycle: c, measure_cycle: mc });
                                    }
                                },
                                _ => {},
                            }
                        },
                        None => {},
                    }
                    phase.insert(a, AtomPhase::Reset { cycle: c });
                    reset.insert(a);
                    measured.remove(&a);
                },
                AtomEvent::Use(a) => {
                    if measured.contains(&a) {
                        return Err(OrderingError::MeasureUseSameCycle { cycle: c, atom: a });
                    }
                    if reset.contains(&a) {
                        return Err(OrderingError::ResetUseSameCycle { cycle: c, atom: a });
                    }
                    let current = match phase.get(&a) {
                        Some(p) => Some(*p),
                        None => None,
                    };
                    match current {
                        Some(AtomPhase::Measured { cycle: mc }) => {
                            proof {
                                assert(event_step(st, c, ev) == Err::<PhaseState, OrderingError>(
                                    OrderingError::MeasureReuseWithoutReset { atom: a, measure_cycle: mc, reuse_cycle: c }));
                                assert(events_run(st, c, evs.subrange(m as int, evs.len() as int)) == Err::<PhaseState, OrderingError>(OrderingError::MeasureReuseWithoutReset { atom: a, measure_cycle: mc, reuse_cycle: c }));
                                assert(layers_run(init, None, layers@) == Err::<PhaseState, OrderingError>(OrderingError::MeasureReuseWithoutReset { atom: a, measure_cycle: mc, reuse_cycle: c }));
                            }
                            return Err(OrderingError::MeasureReuseWithoutReset { atom: a, measure_cycle: mc, reuse_cycle: c });
                        },
                        Some(AtomPhase::Reset { cycle: rc }) => {
                            if c <= rc {
                                return Err(OrderingError::ResetUseSameCycle { cycle: c, atom: a });
                            }
                            phase.remove(&a);
                        },
                        None => {},
                    }
                },
            }
            proof {
                assert(event_step(st, c, ev) == Ok::<PhaseState, OrderingError>(state_of(phase@, measured@, reset@)));
            }
            m += 1;
        }
        t += 1;
    }
    proof {
        assert(layers@.subrange(n as int, n as int).len() == 0);
    }
    Ok(())
}

/// A move or store must use the AOD trap its atom's load established; atoms
/// with no recorded load are exempt.
pub fn check_bound_trap(cycle: u32, atom: u32, trap: (u32, u32, u32), bindings: &std::collections::BTreeMap<u32, (u32, u32, u32)>)
    -> (r: Result<(), OrderingError>)
    ensures
        r is Err <==> bindings@.contains_key(atom) && bindings@[atom] != trap,
        r matches Err(e) ==> e == (OrderingError::AodRefMismatch {
            cycle,
            atom,
            aod_id: trap.0,
            row: trap.1,
            col: trap.2,
            bound_aod_id: bindings@[atom].0,
            bound_row: bindings@[atom].1,
            bound_col: bindings@[atom].2,
        }),
{
    match bindings.get(&atom) {
        Some(bound) => {
            if bound.0 != trap.0 || bound.1 != trap.1 || bound.2 != trap.2 {
                Err(OrderingError::AodRefMismatch {
                    cycle,
                    atom,
                    aod_id: trap.0,
                    row: trap.1,
                    col: trap.2,
                    bound_aod_id: bound.0,
                    bound_row: bound.1,
                    bound_col: bound.2,
                })
            } else {
                Ok(())
            }
        },
        None => Ok(()),
    }
}
/// A second claim within one layer.
#[derive(Clone, Copy, Debug, PartialEq, Eq, Structural)]
pub enum ClaimError {
    /// Two moves of the layer place the same atom.
    DuplicateOccupancyAtom { cycle: u32, atom: u32 },
    /// Two moves of the layer end on the same site.
    DuplicateOccupancySite { cycle: u32, site: u32 },
    /// An atom takes part in two entangling pairs of the layer.
    DuplicateEntanglingAtom { cycle: u32, atom: u32 },
}

/// What one layer has claimed so far: atoms and sites placed by its moves,
/// and atoms of its entangling pairs.
pub struct LayerClaims {
    claimed_atoms: std::collections::BTreeSet<u32>,
    claimed_sites: std::collections::BTreeSet<u32>,
    entangling_atoms: std::collections::BTreeSet<u32>,
}

/// The atoms of a list of pairs, each pair's first atom then its second.
pub open spec fn pair_atoms(pairs: Seq<(u32, u32)>) -> Seq<u32>
    decreases pairs.len(),
{
    if pairs.len() == 0 {
        seq![]
    } else {
        pair_atoms(pairs.drop_last()) + seq![pairs.last().0, pairs.last().1]
    }
}

impl LayerClaims {
    /// The atoms placed by moves so far.
    pub closed spec fn atoms(&self) -> Set<u32> {
        self.claimed_atoms@
    }

    /// The sites moved onto so far.
    pub closed spec fn sites(&self) -> Set<u32> {
        self.claimed_sites@
    }

    /// The atoms entangled so far.
    pub closed spec fn entangled(&self) -> Set<u32> {
        self.entangling_atoms@
    }

    /// Nothing claimed yet.
    pub fn new() -> (r: Self)
        ensures
            r.atoms() == Set::<u32>::empty(),
            r.sites() == Set::<u32>::empty(),
            r.entangled() == Set::<u32>::empty(),
    {
        LayerClaims {
            claimed_atoms: std::collections::BTreeSet::new(),
            claimed_sites: std::collections::BTreeSet::new(),
            entangling_atoms: std::collections::BTreeSet::new(),
        }
    }

    /// Claim `site` for `atom`: a second claim of the atom, or of the site,
    /// is refused (the atom is recorded before the site is looked at).
    pub fn claim_occupancy(&mut self, cycle: u32, atom: u32, site: u32) -> (r: Result<(), ClaimError>)
        ensures
            final(self).entangled() == old(self).entangled(),
            old(self).atoms().contains(atom) ==> r == Err::<(), ClaimError>(ClaimError::DuplicateOccupancyAtom { cycle, atom })
                && final(self).atoms() == old(self).atoms() && final(self).sites() == old(self).sites(),
            !old(self).atoms().contains(atom) ==> final(self).atoms() == old(self).atoms().insert(atom),
            !old(self).atoms().contains(atom) && old(self).sites().contains(site) ==> r == Err::<(), ClaimError>(
                ClaimError::DuplicateOccupancySite { cycle, site }) && final(self).sites() == old(self).sites(),
            !old(self).atoms().contains(atom) && !old(self).sites().contains(site) ==> r is Ok
                && final(self).sites() == old(self).sites().insert(site),
    {
        if !self.claimed_atoms.insert(atom) {
            return Err(ClaimError::DuplicateOccupancyAtom { cycle, atom });
        }
        if !self.claimed_sites.insert(site) {
            return Err(ClaimError::DuplicateOccupancySite { cycle, site });
        }
        Ok(())
    }

    /// Record the atoms of entangling pairs, refusing the first atom that is
    /// already entangled in this layer.
    pub fn record_entangle(&mut self, cycle: u32, pairs: &Vec<(u32, u32)>) -> (r: Result<(), ClaimError>)
        ensures
            final(self).atoms() == old(self).atoms(),
            final(self).sites() == old(self).sites(),
            r is Ok <==> pair_atoms(pairs@).no_duplicates()
                && forall|k: int| 0 <= k < pair_atoms(pairs@).len() ==> !old(self).entangled().contains(#[trigger] pair_atoms(pairs@)[k]),
            r is Ok ==> final(self).entangled() == old(self).entangled() + pair_atoms(pairs@).to_set(),
            r matches Err(e) ==> e matches ClaimError::DuplicateEntanglingAtom { cycle: c, atom } && c == cycle
                && pair_atoms(pairs@).contains(atom),
    {
        let ghost start = self.entangling_atoms@;
        let mut p: usize = 0;
        while p < pairs.len()
            invariant
                p <= pairs@.len(),
                self.claimed_atoms@ == old(self).claimed_atoms@,
                self.claimed_sites@ == old(self).claimed_sites@,
                start == old(self).entangling_atoms@,
                pair_atoms(pairs@.take(p as int)).no_duplicates(),
                forall|k: int| 0 <= k < pair_atoms(pairs@.take(p as int)).len()
                    ==> !start.contains(#[trigger] pair_atoms(pairs@.take(p as int))[k]),
                self.entangling_atoms@ == start + pair_atoms(pairs@.take(p as int)).to_set(),
            decreases pairs.len() - p,
        {
            let (a, b) = pairs[p];
            let ghost before = pair_atoms(pairs@.take(p as int));
            proof {
                assert(pairs@.take(p + 1).drop_last() =~= pairs@.take(p as int));
                assert(pair_atoms(pairs@.take(p + 1)) == before + seq![a, b]);
                lemma_prefix_atoms(pairs@, p as int);
                lemma_pair_position(pairs@, p as int);
            }
            if !self.entangling_atoms.insert(a) {
                proof {
                    let whole = pair_atoms(pairs@);
                    assert(whole[2 * p as int] == a);
                    if !start.contains(a) {
                        let k = choose|k: int| 0 <= k < before.len() && before[k] == a;
                        assert(whole[k] == a);
                    }
                }
                return Err(ClaimError::DuplicateEntanglingAtom { cycle, atom: a });
            }
            if !self.entangling_atoms.insert(b) {
                proof {
                    let whole = pair_atoms(pairs@);
                    assert(whole[2 * p + 1] == b);
                    if b == a {
                        assert(whole[2 * p as int] == b);
                    } else if !start.contains(b) {
                        let k = choose|k: int| 0 <= k < before.len() && before[k] == b;
                        assert(whole[k] == b);
                    }
                }
                return Err(ClaimError::DuplicateEntanglingAtom { cycle, atom: b });
            }
            proof {
                let after = before + seq![a, b];
                assert(after.to_set() =~= before.to_set().insert(a).insert(b)) by {
                    assert forall|x: u32| after.to_set().contains(x) <==> before.to_set().insert(a).insert(b).contains(x) by {
                        if after.contains(x) {
                            let k = choose|k: int| 0 <= k < after.len() && after[k] == x;
                            if k < before.len() {
                                assert(before[k] == x);
                            }
                        }
                        if before.contains(x) {
                            let k = choose|k: int| 0 <= k < before.len() && before[k] == x;
                            assert(after[k] == x);
                        }
                        if x == a {
                            assert(after[before.len() as int] == a);
                        }
                        if x == b {
                            assert(after[before.len() + 1int] == b);
                        }
                    }
                }
                assert forall|i: int, j: int| 0 <= i < after.len() && 0 <= j < after.len() && i != j implies after[i] != after[j] by {
                    if i < before.len() && j < before.len() {
                    } else if i < before.len() {
                        assert(before[i] == after[i]);
                        assert(start.contains(after[i]) || before.to_set().contains(after[i]));
                    } else if j < before.len() {
                        assert(before[j] == after[j]);
                    }
                }
                assert forall|k: int| 0 <= k < after.len() implies !start.contains(#[trigger] after[k]) by {
                    if k < before.len() {
                        assert(after[k] == before[k]);
                    }
                }
            }
            p += 1;
        }
        proof {
            assert(pairs@.take(pairs@.len() as int) =~= pairs@);
        }
        Ok(())
    }
}

/// The atom list of a prefix of the pairs is a prefix of the whole atom list.
proof fn lemma_prefix_atoms(pairs: Seq<(u32, u32)>, p: int)
    requires
        0 <= p <= pairs.len(),
    ensures
        pair_atoms(pairs.take(p)).len() == 2 * p,
        pair_atoms(pairs).len() == 2 * pairs.len(),
        forall|k: int| 0 <= k < 2 * p ==> #[trigger] pair_atoms(pairs.take(p))[k] == pair_atoms(pairs)[k],
    decreases pairs.len() - p,
{
    lemma_atoms_len(pairs.take(p));
    lemma_atoms_len(pairs);
    if p == pairs.len() {
        assert(pairs.take(p) =~= pairs);
    } else {
        lemma_prefix_atoms(pairs, p + 1);
        assert(pairs.take(p + 1).drop_last() =~= pairs.take(p));
        assert forall|k: int| 0 <= k < 2 * p implies #[trigger] pair_atoms(pairs.take(p))[k] == pair_atoms(pairs)[k] by {
            assert(pair_atoms(pairs.take(p + 1))[k] == pair_atoms(pairs.take(p))[k]);
        }
    }
}

proof fn lemma_atoms_len(pairs: Seq<(u32, u32)>)
    ensures
        pair_atoms(pairs).len() == 2 * pairs.len(),
    decreases pairs.len(),
{
    if pairs.len() > 0 {
        lemma_atoms_len(pairs.drop_last());
    }
}

/// The two atoms of pair `p` sit at `2p` and `2p + 1` of the atom list.
proof fn lemma_pair_position(pairs: Seq<(u32, u32)>, p: int)
    requires
        0 <= p < pairs.len(),
    ensures
        pair_atoms(pairs)[2 * p] == pairs[p].0,
        pair_atoms(pairs)[2 * p + 1] == pairs[p].1,
{
    lemma_prefix_atoms(pairs, p + 1);
    assert(pairs.take(p + 1).drop_last() =~= pairs.take(p));
    lemma_atoms_len(pairs.take(p));
    assert(pairs.take(p + 1).last() == pairs[p]);
    assert(pair_atoms(pairs.take(p + 1))[2 * p] == pairs[p].0);
    assert(pair_atoms(pairs.take(p + 1))[2 * p + 1] == pairs[p].1);
}

} // verus!
