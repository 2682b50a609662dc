//! Options and artifacts of the neutral-atom scheduling pipeline.

use vstd::prelude::*;

use std::collections::BTreeMap;

use crate::ids::{AtomId, InteractionId};
use crate::placement::PlacementStrategy;
use crate::plan::PlacerMode;
use crate::schedule::{LocalGateKind, NeutralAtomAction, ScheduleLayer};

verus! {

broadcast use vstd::std_specs::btree::group_btree_axioms, vstd::laws_cmp::group_laws_cmp;

/// Which NA backend schedules the layers.
#[derive(Clone, Copy, Debug, PartialEq, Eq, Structural)]
pub enum NaBackendKind {
    /// Zoned placement and routing, the default for multi-zone targets.
    Zoned,
    /// Flat AOD pair-bank planner.
    FlatAod,
}

impl Default for NaBackendKind {
    fn default() -> (r: Self)
        ensures
            r == NaBackendKind::Zoned,
    {
        NaBackendKind::Zoned
    }
}

/// State-preparation scheduling mode.
#[derive(Clone, Copy, Debug, PartialEq, Eq, Structural)]
pub enum StatePrepMode {
    /// Heuristic zoned / flat scheduler, the default.
    Heuristic,
    /// Exact stage colouring through an SMT solver.
    Exact,
}

impl Default for StatePrepMode {
    fn default() -> (r: Self)
        ensures
            r == StatePrepMode::Heuristic,
    {
        StatePrepMode::Heuristic
    }
}

/// Placement / routing objective.
#[derive(Clone, Copy, Debug, PartialEq, Eq, Structural)]
pub enum NaObjective {
    /// Minimize the time-shaped routing cost, the default.
    Time,
    /// Minimize the analytic error-model contributions.
    ErrorBudget,
}

impl Default for NaObjective {
    fn default() -> (r: Self)
        ensures
            r == NaObjective::Time,
    {
        NaObjective::Time
    }
}

/// Options of one pipeline run.
#[derive(Clone, Copy, Debug, PartialEq, Eq, Structural)]
pub struct NaScheduleOptions {
    pub backend: NaBackendKind,
    pub placer: PlacerMode,
    pub compact: bool,
    pub placement: PlacementStrategy,
    /// Print stage summaries while running.
    pub dump_ir: bool,
    pub state_prep: StatePrepMode,
    pub objective: NaObjective,
}

impl Default for NaScheduleOptions {
    /// Zoned backend, routing-agnostic placer, compaction on, row-major
    /// placement, no dump, heuristic state preparation, time objective.
    fn default() -> (r: Self)
        ensures
            r == (NaScheduleOptions {
                backend: NaBackendKind::Zoned,
                placer: PlacerMode::RoutingAgnostic,
                compact: true,
                placement: PlacementStrategy::RowMajor,
                dump_ir: false,
                state_prep: StatePrepMode::Heuristic,
                objective: NaObjective::Time,
            }),
    {
        NaScheduleOptions {
            backend: NaBackendKind::default(),
            placer: PlacerMode::RoutingAgnostic,
            compact: true,
            placement: PlacementStrategy::RowMajor,
            dump_ir: false,
            state_prep: StatePrepMode::default(),
            objective: NaObjective::default(),
        }
    }
}

/// What a successful pipeline run hands back: the scheduled layers and the
/// number of logical qubits they serve.
#[derive(Clone, Debug)]
pub struct NaScheduleArtifacts {
    pub layers: Vec<ScheduleLayer>,
    pub logical_qubits: u64,
}


/// Why the pipeline stopped.
#[derive(Clone, Copy, Debug, PartialEq, Eq, Structural)]
pub enum NaPipelineError {
    /// A local gate is anchored after an interaction that was given no cycle.
    LocalGateAnchorMissing { interaction: InteractionId },
}

/// A decomposed single-qubit gate: the interaction it must follow (none:
/// before every entangling layer) and how many native actions it became.
#[derive(Clone, Copy, Debug, PartialEq, Eq, Structural)]
pub struct AnchoredGate {
    pub after: Option<InteractionId>,
    pub steps: usize,
}

/// Where one layer of the spliced schedule comes from.
#[derive(Clone, Copy, Debug, PartialEq, Eq, Structural)]
pub enum SpliceSlot {
    /// The entangling-scheduled layer with this index.
    Layer(usize),
    /// Native action `op` of local gate `gate`, in a layer of its own.
    Step { gate: usize, op: usize },
}

/// The cycle a gate is anchored to: `Some(None)` for an unanchored gate,
/// `Some(Some(c))` for one after an interaction of cycle `c`, `None` when
/// its interaction has no cycle.
pub open spec fn anchor_cycle(m: Map<u32, u32>, g: AnchoredGate) -> Option<Option<u32>> {
    match g.after {
        None => Some(None),
        Some(id) => if m.contains_key(id.0) { Some(Some(m[id.0])) } else { None },
    }
}

/// Gate `i` is the first whose interaction has no cycle.
pub open spec fn first_missing(m: Map<u32, u32>, gates: Seq<AnchoredGate>, i: int) -> bool {
    &&& 0 <= i < gates.len()
    &&& anchor_cycle(m, gates[i]) is None
    &&& forall|j: int| 0 <= j < i ==> #[trigger] anchor_cycle(m, gates[j]) is Some
}

/// The actions of gate `g`, one slot each.
pub open spec fn gate_steps(g: int, n: nat) -> Seq<SpliceSlot> {
    Seq::new(n, |k: int| SpliceSlot::Step { gate: g as usize, op: k as usize })
}

/// The actions of the first `upto` gates anchored to `c`, gate by gate.
pub open spec fn bucket(m: Map<u32, u32>, gates: Seq<AnchoredGate>, c: Option<u32>, upto: int) -> Seq<SpliceSlot>
    decreases upto,
{
    if upto <= 0 {
        seq![]
    } else {
        bucket(m, gates, c, upto - 1) + if anchor_cycle(m, gates[upto - 1]) == Some(c) {
            gate_steps(upto - 1, gates[upto - 1].steps as nat)
        } else {
            Seq::<SpliceSlot>::empty()
        }
    }
}

/// Layer `j` is the first with its cycle.
pub open spec fn first_with_cycle(cycles: Seq<u32>, j: int) -> bool {
    forall|i: int| 0 <= i < j ==> cycles[i] != cycles[j]
}

/// The unanchored gates, then each of the first `upto` layers followed,
/// at the first layer of its cycle, by the gates anchored to that cycle.
pub open spec fn spliced(m: Map<u32, u32>, gates: Seq<AnchoredGate>, cycles: Seq<u32>, upto: int) -> Seq<SpliceSlot>
    decreases upto,
{
    if upto <= 0 {
        bucket(m, gates, None, gates.len() as int)
    } else {
        spliced(m, gates, cycles, upto - 1) + seq![SpliceSlot::Layer((upto - 1) as usize)]
            + if first_with_cycle(cycles, upto - 1) {
            bucket(m, gates, Some(cycles[upto - 1]), gates.len() as int)
        } else {
            Seq::<SpliceSlot>::empty()
        }
    }
}

/// A cycle some gate is anchored to that no layer has.
pub open spec fn stray_cycle(m: Map<u32, u32>, gates: Seq<AnchoredGate>, cycles: Seq<u32>, c: u32) -> bool {
    &&& exists|g: int| 0 <= g < gates.len() && #[trigger] anchor_cycle(m, gates[g]) == Some(Some(c))
    &&& !cycles.contains(c)
}

/// The gates anchored to each cycle of `ks`, cycle by cycle.
pub open spec fn strays(m: Map<u32, u32>, gates: Seq<AnchoredGate>, ks: Seq<u32>) -> Seq<SpliceSlot>
    decreases ks.len(),
{
    if ks.len() == 0 {
        seq![]
    } else {
        strays(m, gates, ks.drop_last()) + bucket(m, gates, Some(ks.last()), gates.len() as int)
    }
}

/// Strictly increasing.
pub open spec fn increasing(ks: Seq<u32>) -> bool {
    forall|i: int, j: int| 0 <= i < j < ks.len() ==> ks[i] < ks[j]
}

fn insert_cycle(v: &mut Vec<u32>, x: u32)
    requires
        increasing(old(v)@),
    ensures
        increasing(final(v)@),
        forall|y: u32| #[trigger] final(v)@.contains(y) <==> (old(v)@.contains(y) || y == x),
{
    let mut i: usize = 0;
    while i < v.len() && v[i] < x
        invariant
            i <= v.len(),
            increasing(v@),
            forall|k: int| 0 <= k < i ==> v@[k] < x,
        decreases v.len() - i,
    {
        i += 1;
    }
    if i < v.len() && v[i] == x {
        return;
    }
    let ghost old_v = v@;
    v.insert(i, x);
    proof {
        assert forall|y: u32| #[trigger] v@.contains(y) <==> (old_v.contains(y) || y == x) by {
            if v@.contains(y) {
                let k = choose|k: int| 0 <= k < v@.len() && v@[k] == y;
                if k < i {
                    assert(old_v[k] == y);
                } else if k > i {
                    assert(old_v[k - 1] == y);
                }
            }
            if old_v.contains(y) {
                let k = choose|k: int| 0 <= k < old_v.len() && old_v[k] == y;
                if k < i {
                    assert(v@[k] == y);
                } else {
                    assert(v@[k + 1] == y);
                }
            }
            if y == x {
                assert(v@[i as int] == y);
            }
        }
    }
}

fn push_bucket(out: &mut Vec<SpliceSlot>, gates: &Vec<AnchoredGate>, resolved: &Vec<Option<u32>>, c: Option<u32>,
    Ghost(m): Ghost<Map<u32, u32>>)
    requires
        resolved@.len() == gates@.len(),
        forall|j: int| 0 <= j < gates@.len() ==> #[trigger] anchor_cycle(m, gates@[j]) == Some(resolved@[j]),
    ensures
        final(out)@ == old(out)@ + bucket(m, gates@, c, gates@.len() as int),
{
    let mut g: usize = 0;
    while g < gates.len()
        invariant
            g <= gates@.len(),
            resolved@.len() == gates@.len(),
            forall|j: int| 0 <= j < gates@.len() ==> #[trigger] anchor_cycle(m, gates@[j]) == Some(resolved@[j]),
            out@ == old(out)@ + bucket(m, gates@, c, g as int),
        decreases gates.len() - g,
    {
        let ghost before = out@;
        let same = match (resolved[g], c) {
            (None, None) => true,
            (Some(a), Some(b)) => a == b,
            _ => false,
        };
        proof {
            assert(anchor_cycle(m, gates@[g as int]) == Some(resolved@[g as int]));
        }
        if same {
            let n = gates[g].steps;
            let mut k: usize = 0;
            while k < n
                invariant
                    k <= n,
                    g < gates@.len(),
                    n == gates@[g as int].steps,
                    out@ == before + gate_steps(g as int, k as nat),
                decreases n - k,
            {
                out.push(SpliceSlot::Step { gate: g, op: k });
                proof {
                    assert(out@ =~= before + gate_steps(g as int, (k + 1) as nat));
                }
                k += 1;
            }
            proof {
                assert(out@ =~= old(out)@ + bucket(m, gates@, c, g + 1));
            }
        } else {
            proof {
                assert(out@ =~= old(out)@ + bucket(m, gates@, c, g + 1));
            }
        }
        g += 1;
    }
}

/// A slot that names an existing layer or an existing step of a gate.
pub open spec fn valid_slot(n_layers: int, gates: Seq<AnchoredGate>, s: SpliceSlot) -> bool {
    match s {
        SpliceSlot::Layer(j) => j < n_layers,
        SpliceSlot::Step { gate, op } => gate < gates.len() && op < gates[gate as int].steps,
    }
}

proof fn lemma_gate_steps(g: int, n: nat)
    requires
        0 <= g <= usize::MAX,
        n <= usize::MAX,
    ensures
        gate_steps(g, n).no_duplicates(),
        forall|s: SpliceSlot| #[trigger] gate_steps(g, n).contains(s) <==> (s is Step && s->gate as int == g
            && (s->op as int) < n),
{
    let gs = gate_steps(g, n);
    assert forall|i: int, j: int| 0 <= i < gs.len() && 0 <= j < gs.len() && i != j implies gs[i] != gs[j] by {
        assert(gs[i]->op as int == i);
        assert(gs[j]->op as int == j);
    }
    assert forall|s: SpliceSlot| #[trigger] gs.contains(s) <==> (s is Step && s->gate as int == g
        && (s->op as int) < n) by {
        if s is Step && s->gate as int == g && (s->op as int) < n {
            assert(gs[s->op as int] == s);
        }
    }
}

proof fn lemma_bucket(m: Map<u32, u32>, gates: Seq<AnchoredGate>, c: Option<u32>, upto: int)
    requires
        0 <= upto <= gates.len(),
        gates.len() <= usize::MAX,
        forall|g: int| 0 <= g < gates.len() ==> (gates[g].steps as int) <= usize::MAX,
    ensures
        bucket(m, gates, c, upto).no_duplicates(),
        forall|s: SpliceSlot| #[trigger] bucket(m, gates, c, upto).contains(s) <==> (s is Step
            && (s->gate as int) < upto && s->op < gates[s->gate as int].steps
            && anchor_cycle(m, gates[s->gate as int]) == Some(c)),
    decreases upto,
{
    broadcast use vstd::seq_lib::group_seq_properties;
    if upto > 0 {
        lemma_bucket(m, gates, c, upto - 1);
        let prev = bucket(m, gates, c, upto - 1);
        let g = upto - 1;
        if anchor_cycle(m, gates[g]) == Some(c) {
            let gs = gate_steps(g, gates[g].steps as nat);
            lemma_gate_steps(g, gates[g].steps as nat);
            assert forall|i: int, j: int| 0 <= i < prev.len() && 0 <= j < gs.len() implies prev[i] != gs[j] by {
                assert(prev.contains(prev[i]));
                assert(gs.contains(gs[j]));
                assert((prev[i]->gate as int) < g);
            }
            vstd::seq_lib::lemma_no_dup_in_concat(prev, gs);
            assert(bucket(m, gates, c, upto) == prev + gs);
        } else {
            assert(bucket(m, gates, c, upto) =~= prev);
        }
    }
}

/// Gate anchor `a` is placed among the first `upto` layers (or before all).
pub open spec fn placed_within(cycles: Seq<u32>, a: Option<Option<u32>>, upto: int) -> bool {
    a == Some(None::<u32>) || exists|j: int| 0 <= j < upto && a == Some(Some(#[trigger] cycles[j]))
}

proof fn lemma_spliced(m: Map<u32, u32>, gates: Seq<AnchoredGate>, cycles: Seq<u32>, upto: int)
    requires
        0 <= upto <= cycles.len(),
        cycles.len() <= usize::MAX,
        forall|g: int| 0 <= g < gates.len() ==> (gates[g].steps as int) <= usize::MAX,
        gates.len() <= usize::MAX,
    ensures
        spliced(m, gates, cycles, upto).no_duplicates(),
        forall|s: SpliceSlot| #[trigger] spliced(m, gates, cycles, upto).contains(s) <==> match s {
            SpliceSlot::Layer(j) => (j as int) < upto,
            SpliceSlot::Step { gate, op } => (gate as int) < gates.len() && op < gates[gate as int].steps
                && placed_within(cycles, anchor_cycle(m, gates[gate as int]), upto),
        },
    decreases upto,
{
    broadcast use vstd::seq_lib::group_seq_properties;
    lemma_bucket(m, gates, None, gates.len() as int);
    if upto == 0 {
        let b = bucket(m, gates, None, gates.len() as int);
        assert forall|s: SpliceSlot| #[trigger] spliced(m, gates, cycles, upto).contains(s) <==> match s {
            SpliceSlot::Layer(j) => (j as int) < upto,
            SpliceSlot::Step { gate, op } => (gate as int) < gates.len() && op < gates[gate as int].steps
                && placed_within(cycles, anchor_cycle(m, gates[gate as int]), upto),
        } by {
            assert(b.contains(s) ==> s is Step);
        }
    } else {
        lemma_spliced(m, gates, cycles, upto - 1);
        let prev = spliced(m, gates, cycles, upto - 1);
        let j = upto - 1;
        let lay = seq![SpliceSlot::Layer(j as usize)];
        let cy = cycles[j];
        assert forall|i: int, k: int| 0 <= i < prev.len() && 0 <= k < lay.len() implies prev[i] != lay[k] by {
            assert(prev.contains(prev[i]));
        }
        vstd::seq_lib::lemma_no_dup_in_concat(prev, lay);
        let pl = prev + lay;
        if first_with_cycle(cycles, j) {
            let b = bucket(m, gates, Some(cy), gates.len() as int);
            lemma_bucket(m, gates, Some(cy), gates.len() as int);
            assert forall|i: int, k: int| 0 <= i < pl.len() && 0 <= k < b.len() implies pl[i] != b[k] by {
                assert(b.contains(b[k]));
                if i < prev.len() {
                    assert(prev.contains(prev[i]));
                    if pl[i] == b[k] {
                        let s = b[k];
                        let a = anchor_cycle(m, gates[s->gate as int]);
                        assert(a == Some(Some(cy)));
                        assert(placed_within(cycles, a, upto - 1));
                        let q = choose|q: int| 0 <= q < upto - 1 && a == Some(Some(#[trigger] cycles[q]));
                        assert(cycles[q] != cycles[j]);
                    }
                }
            }
            vstd::seq_lib::lemma_no_dup_in_concat(pl, b);
            assert(spliced(m, gates, cycles, upto) == pl + b);
        } else {
            assert(spliced(m, gates, cycles, upto) =~= pl);
            let q = choose|q: int| 0 <= q < j && cycles[q] == cycles[j];
            assert forall|a: Option<Option<u32>>| placed_within(cycles, a, upto) implies placed_within(cycles, a, upto - 1) by {
                if a != Some(None::<u32>) {
                    let w = choose|w: int| 0 <= w < upto && a == Some(Some(#[trigger] cycles[w]));
                    if w == j {
                        assert(a == Some(Some(cycles[q])));
                    }
                }
            }
        }
        assert forall|s: SpliceSlot| #[trigger] spliced(m, gates, cycles, upto).contains(s) <==> match s {
            SpliceSlot::Layer(j) => (j as int) < upto,
            SpliceSlot::Step { gate, op } => (gate as int) < gates.len() && op < gates[gate as int].steps
                && placed_within(cycles, anchor_cycle(m, gates[gate as int]), upto),
        } by {
            match s {
                SpliceSlot::Layer(l) => {
                    if (l as int) == j {
                        assert(lay.contains(s));
                    }
                },
                SpliceSlot::Step { gate, op } => {
                    let a = anchor_cycle(m, gates[gate as int]);
                    if placed_within(cycles, a, upto) && a != Some(None::<u32>) {
                        let w = choose|w: int| 0 <= w < upto && a == Some(Some(#[trigger] cycles[w]));
                        if w < j {
                            assert(placed_within(cycles, a, upto - 1));
                        }
                    }
                    if placed_within(cycles, a, upto - 1) && a != Some(None::<u32>) {
                        let w = choose|w: int| 0 <= w < upto - 1 && a == Some(Some(#[trigger] cycles[w]));
                        assert(0 <= w < upto);
                    }
                },
            }
        }
    }
}

proof fn lemma_strays(m: Map<u32, u32>, gates: Seq<AnchoredGate>, ks: Seq<u32>)
    requires
        increasing(ks),
        gates.len() <= usize::MAX,
        forall|g: int| 0 <= g < gates.len() ==> (gates[g].steps as int) <= usize::MAX,
    ensures
        strays(m, gates, ks).no_duplicates(),
        forall|s: SpliceSlot| #[trigger] strays(m, gates, ks).contains(s) <==> (s is Step
            && (s->gate as int) < gates.len() && s->op < gates[s->gate as int].steps
            && exists|t: int| 0 <= t < ks.len() && anchor_cycle(m, gates[s->gate as int]) == Some(Some(#[trigger] ks[t]))),
    decreases ks.len(),
{
    broadcast use vstd::seq_lib::group_seq_properties;
    if ks.len() > 0 {
        let pre = ks.drop_last();
        lemma_strays(m, gates, pre);
        let prev = strays(m, gates, pre);
        let b = bucket(m, gates, Some(ks.last()), gates.len() as int);
        lemma_bucket(m, gates, Some(ks.last()), gates.len() as int);
        assert forall|i: int, k: int| 0 <= i < prev.len() && 0 <= k < b.len() implies prev[i] != b[k] by {
            assert(prev.contains(prev[i]));
            assert(b.contains(b[k]));
            if prev[i] == b[k] {
                let s = b[k];
                let t = choose|t: int| 0 <= t < pre.len() && anchor_cycle(m, gates[s->gate as int]) == Some(Some(#[trigger] pre[t]));
                assert(ks[t] < ks[ks.len() - 1]);
            }
        }
        vstd::seq_lib::lemma_no_dup_in_concat(prev, b);
        assert forall|s: SpliceSlot| #[trigger] strays(m, gates, ks).contains(s) <==> (s is Step
            && (s->gate as int) < gates.len() && s->op < gates[s->gate as int].steps
            && exists|t: int| 0 <= t < ks.len() && anchor_cycle(m, gates[s->gate as int]) == Some(Some(#[trigger] ks[t]))) by {
            if s is Step && (s->gate as int) < gates.len() {
                let a = anchor_cycle(m, gates[s->gate as int]);
                if exists|t: int| 0 <= t < ks.len() && a == Some(Some(#[trigger] ks[t])) {
                    let t = choose|t: int| 0 <= t < ks.len() && a == Some(Some(#[trigger] ks[t]));
                    if t < pre.len() {
                        assert(a == Some(Some(pre[t])));
                    }
                }
                if exists|t: int| 0 <= t < pre.len() && a == Some(Some(#[trigger] pre[t])) {
                    let t = choose|t: int| 0 <= t < pre.len() && a == Some(Some(#[trigger] pre[t]));
                    assert(a == Some(Some(ks[t])));
                }
            }
        }
    }
}

/// Splicing local gates drops and repeats nothing: once every anchor
/// resolves, the plan names every entangling layer and every native step of
/// every gate exactly once, and nothing else.
pub proof fn lemma_interleave_places_everything_once(m: Map<u32, u32>, gates: Seq<AnchoredGate>,
    cycles: Seq<u32>, ks: Seq<u32>)
    requires
        cycles.len() <= usize::MAX,
        gates.len() <= usize::MAX,
        forall|g: int| 0 <= g < gates.len() ==> #[trigger] anchor_cycle(m, gates[g]) is Some,
        increasing(ks),
        forall|c: u32| #[trigger] ks.contains(c) <==> stray_cycle(m, gates, cycles, c),
    ensures
        ({
            let slots = spliced(m, gates, cycles, cycles.len() as int) + strays(m, gates, ks);
            &&& slots.no_duplicates()
            &&& forall|s: SpliceSlot| #[trigger] slots.contains(s) <==> valid_slot(cycles.len() as int, gates, s)
        }),
{
    broadcast use vstd::seq_lib::group_seq_properties;
    let n = cycles.len() as int;
    let sp = spliced(m, gates, cycles, n);
    let st = strays(m, gates, ks);
    lemma_spliced(m, gates, cycles, n);
    lemma_strays(m, gates, ks);
    assert forall|i: int, k: int| 0 <= i < sp.len() && 0 <= k < st.len() implies sp[i] != st[k] by {
        assert(sp.contains(sp[i]));
        assert(st.contains(st[k]));
        if sp[i] == st[k] {
            let s = st[k];
            let a = anchor_cycle(m, gates[s->gate as int]);
            let t = choose|t: int| 0 <= t < ks.len() && a == Some(Some(#[trigger] ks[t]));
            assert(ks.contains(ks[t]));
            assert(!cycles.contains(ks[t]));
            let w = choose|w: int| 0 <= w < n && a == Some(Some(#[trigger] cycles[w]));
            assert(cycles.contains(cycles[w]));
        }
    }
    vstd::seq_lib::lemma_no_dup_in_concat(sp, st);
    assert forall|s: SpliceSlot| #[trigger] (sp + st).contains(s) <==> valid_slot(n, gates, s) by {
        match s {
            SpliceSlot::Layer(j) => {},
            SpliceSlot::Step { gate, op } => {
                if (gate as int) < gates.len() && op < gates[gate as int].steps {
                    let a = anchor_cycle(m, gates[gate as int]);
                    assert(a is Some);
                    if a != Some(None::<u32>) {
                        let c = a->0->0;
                        if cycles.contains(c) {
                            let w = choose|w: int| 0 <= w < n && cycles[w] == c;
                            assert(a == Some(Some(cycles[w])));
                            assert(placed_within(cycles, a, n));
                        } else {
                            assert(stray_cycle(m, gates, cycles, c));
                            assert(ks.contains(c));
                            let t = choose|t: int| 0 <= t < ks.len() && ks[t] == c;
                            assert(a == Some(Some(ks[t])));
                        }
                    }
                }
            },
        }
    }
}

/// Plan where the decomposed single-qubit gates go among the entangling
/// layers (whose cycles are `layer_cycles`): the steps of the unanchored
/// gates first, then each layer, followed at the first layer of each cycle by
/// the steps of the gates anchored to it; steps anchored to a cycle no layer
/// has come last, by increasing cycle. Every slot is a layer of its own, and
/// its cycle is its position. A gate whose interaction is missing from
/// `interaction_cycle` stops the plan with an error naming the first such.
pub fn interleave_local_gates(layer_cycles: &Vec<u32>, interaction_cycle: &BTreeMap<u32, u32>,
    gates: &Vec<AnchoredGate>) -> (r: Result<Vec<SpliceSlot>, NaPipelineError>)
    ensures
        r is Err <==> exists|i: int| first_missing(interaction_cycle@, gates@, i),
        forall|i: int| first_missing(interaction_cycle@, gates@, i) ==> r == Err::<Vec<SpliceSlot>, NaPipelineError>(
            NaPipelineError::LocalGateAnchorMissing { interaction: gates@[i].after->0 }),
        r matches Ok(slots) ==> exists|ks: Seq<u32>| {
            &&& increasing(ks)
            &&& forall|c: u32| #[trigger] ks.contains(c) <==> stray_cycle(interaction_cycle@, gates@, layer_cycles@, c)
            &&& slots@ == spliced(interaction_cycle@, gates@, layer_cycles@, layer_cycles@.len() as int)
                + strays(interaction_cycle@, gates@, ks)
        },
        r matches Ok(slots) ==> slots@.no_duplicates()
            && forall|s: SpliceSlot| #[trigger] slots@.contains(s) <==> valid_slot(layer_cycles@.len() as int, gates@, s),
{
    let ghost m = interaction_cycle@;
    let mut resolved: Vec<Option<u32>> = Vec::new();
    let mut g: usize = 0;
    while g < gates.len()
        invariant
            g <= gates@.len(),
            m == interaction_cycle@,
            resolved@.len() == g,
            forall|j: int| 0 <= j < g ==> #[trigger] anchor_cycle(m, gates@[j]) == Some(resolved@[j]),
        decreases gates.len() - g,
    {
        match gates[g].after {
            None => {
                resolved.push(None);
            },
            Some(id) => {
                match interaction_cycle.get(&id.0) {
                    Some(c) => {
                        resolved.push(Some(*c));
                    },
                    None => {
                        proof {
                            assert(first_missing(m, gates@, g as int));
                            assert forall|i: int| first_missing(m, gates@, i) implies i == g by {
                                if i < g {
                                    assert(anchor_cycle(m, gates@[i]) is Some);
                                } else if i > g {
                                    assert(anchor_cycle(m, gates@[g as int]) is Some);
                                }
                            }
                        }
                        return Err(NaPipelineError::LocalGateAnchorMissing { interaction: id });
                    },
                }
            },
        }
        proof {
            assert(anchor_cycle(m, gates@[g as int]) == Some(resolved@[g as int]));
        }
        g += 1;
    }
    proof {
        assert forall|i: int| !first_missing(m, gates@, i) by {
            if 0 <= i < gates@.len() {
                assert(anchor_cycle(m, gates@[i]) == Some(resolved@[i]));
            }
        }
    }
    let mut out: Vec<SpliceSlot> = Vec::new();
    push_bucket(&mut out, gates, &resolved, None, Ghost(m));
    let mut j: usize = 0;
    while j < layer_cycles.len()
        invariant
            j <= layer_cycles@.len(),
            resolved@.len() == gates@.len(),
            forall|q: int| 0 <= q < gates@.len() ==> #[trigger] anchor_cycle(m, gates@[q]) == Some(resolved@[q]),
            out@ == spliced(m, gates@, layer_cycles@, j as int),
        decreases layer_cycles.len() - j,
    {
        out.push(SpliceSlot::Layer(j));
        let cycle = layer_cycles[j];
        let mut first = true;
        let mut i: usize = 0;
        while i < j
            invariant
                i <= j < layer_cycles@.len(),
                cycle == layer_cycles@[j as int],
                first == forall|q: int| 0 <= q < i ==> layer_cycles@[q] != cycle,
            decreases j - i,
        {
            if layer_cycles[i] == cycle {
                first = false;
            }
            i += 1;
        }
        if first {
            push_bucket(&mut out, gates, &resolved, Some(cycle), Ghost(m));
        }
        proof {
            assert(first == first_with_cycle(layer_cycles@, j as int));
            assert(out@ =~= spliced(m, gates@, layer_cycles@, j + 1));
        }
        j += 1;
    }
    let mut ks: Vec<u32> = Vec::new();
    let mut g: usize = 0;
    while g < gates.len()
        invariant
            g <= gates@.len(),
            resolved@.len() == gates@.len(),
            forall|q: int| 0 <= q < gates@.len() ==> #[trigger] anchor_cycle(m, gates@[q]) == Some(resolved@[q]),
            increasing(ks@),
            forall|c: u32| #[trigger] ks@.contains(c) <==> ((exists|q: int| 0 <= q < g
                && #[trigger] anchor_cycle(m, gates@[q]) == Some(Some(c))) && !layer_cycles@.contains(c)),
        decreases gates.len() - g,
    {
        proof {
            assert(anchor_cycle(m, gates@[g as int]) == Some(resolved@[g as int]));
        }
        match resolved[g] {
            Some(c) => {
                let mut seen = false;
                let mut i: usize = 0;
                while i < layer_cycles.len()
                    invariant
                        i <= layer_cycles@.len(),
                        seen == exists|q: int| 0 <= q < i && layer_cycles@[q] == c,
                    decreases layer_cycles.len() - i,
                {
                    if layer_cycles[i] == c {
                        seen = true;
                    }
                    i += 1;
                }
                proof {
                    if seen {
                        let q = choose|q: int| 0 <= q < layer_cycles@.len() && layer_cycles@[q] == c;
                        assert(layer_cycles@.contains(c));
                    } else {
                        assert(!layer_cycles@.contains(c));
                    }
                }
                if !seen {
                    insert_cycle(&mut ks, c);
                }
            },
            None => {},
        }
        proof {
            assert forall|c: u32| #[trigger] ks@.contains(c) <==> ((exists|q: int| 0 <= q < g + 1
                && #[trigger] anchor_cycle(m, gates@[q]) == Some(Some(c))) && !layer_cycles@.contains(c)) by {
                if exists|q: int| 0 <= q < g + 1 && #[trigger] anchor_cycle(m, gates@[q]) == Some(Some(c)) {
                    let q = choose|q: int| 0 <= q < g + 1 && #[trigger] anchor_cycle(m, gates@[q]) == Some(Some(c));
                    if q < g {
                        assert(exists|q2: int| 0 <= q2 < g && #[trigger] anchor_cycle(m, gates@[q2]) == Some(Some(c)));
                    }
                }
                if exists|q: int| 0 <= q < g && #[trigger] anchor_cycle(m, gates@[q]) == Some(Some(c)) {
                    let q = choose|q: int| 0 <= q < g && #[trigger] anchor_cycle(m, gates@[q]) == Some(Some(c));
                    assert(0 <= q < g + 1);
                }
            }
        }
        g += 1;
    }
    let ghost main = out@;
    let mut t: usize = 0;
    while t < ks.len()
        invariant
            t <= ks@.len(),
            resolved@.len() == gates@.len(),
            forall|q: int| 0 <= q < gates@.len() ==> #[trigger] anchor_cycle(m, gates@[q]) == Some(resolved@[q]),
            out@ == main + strays(m, gates@, ks@.take(t as int)),
        decreases ks.len() - t,
    {
        push_bucket(&mut out, gates, &resolved, Some(ks[t]), Ghost(m));
        proof {
            assert(ks@.take(t + 1).drop_last() =~= ks@.take(t as int));
            assert(out@ =~= main + strays(m, gates@, ks@.take(t + 1)));
        }
        t += 1;
    }
    proof {
        assert(ks@.take(ks@.len() as int) =~= ks@);
        assert forall|c: u32| #[trigger] ks@.contains(c) <==> stray_cycle(m, gates@, layer_cycles@, c) by {}
        assert forall|q: int| 0 <= q < gates@.len() implies #[trigger] anchor_cycle(m, gates@[q]) is Some by {
            assert(anchor_cycle(m, gates@[q]) == Some(resolved@[q]));
        }
        lemma_interleave_places_everything_once(m, gates@, layer_cycles@, ks@);
    }
    Ok(out)
}


/// The bit pattern of `f64` π.
pub const PI_BITS: u64 = 0x4009_21FB_5444_2D18;

/// The bit pattern of `f64` −π.
pub const NEG_PI_BITS: u64 = 0xC009_21FB_5444_2D18;

/// The trapped atoms other than `atom`, in order.
pub open spec fn bystanders(all_atoms: Seq<AtomId>, atom: AtomId) -> Seq<AtomId> {
    all_atoms.filter(|a: AtomId| a != atom)
}

/// A `z` rotation of `atom` by the angle with bit pattern `angle`.
pub open spec fn rz_action(atom: AtomId, angle: u64, duration_us: u64) -> NeutralAtomAction {
    NeutralAtomAction::LocalGate { atom, gate: LocalGateKind::Rz(angle), duration_us }
}

/// Push a whole-array `y` rotation meant for `atom` into `bucket` while
/// isolating every other trapped atom from it. The drive hits every atom,
/// so with bystanders it is split Hahn-echo style: a rotation by `half`,
/// `Rz(π)` on every bystander, a rotation by `half`, `Rz(−π)` on every
/// bystander; the bystanders' net rotation is the identity and `atom`'s is
/// the full rotation. With no bystander a single rotation by `theta` is
/// pushed. Angles are `f64` bit patterns; `half` is `theta / 2`.
pub fn push_global_ry_with_refocus(bucket: &mut Vec<NeutralAtomAction>, atom: AtomId, theta: u64, half: u64,
    all_atoms: &Vec<AtomId>, duration_us: u64)
    ensures
        bystanders(all_atoms@, atom).len() == 0 ==> final(bucket)@ == old(bucket)@.push(
            NeutralAtomAction::GlobalRy { theta_rad: theta, duration_us }),
        bystanders(all_atoms@, atom).len() > 0 ==> final(bucket)@ == old(bucket)@
            + seq![NeutralAtomAction::GlobalRy { theta_rad: half, duration_us }]
            + bystanders(all_atoms@, atom).map_values(|b: AtomId| rz_action(b, PI_BITS, duration_us))
            + seq![NeutralAtomAction::GlobalRy { theta_rad: half, duration_us }]
            + bystanders(all_atoms@, atom).map_values(|b: AtomId| rz_action(b, NEG_PI_BITS, duration_us)),
{
    let ghost by_all = bystanders(all_atoms@, atom);
    let mut by: Vec<AtomId> = Vec::new();
    let mut k: usize = 0;
    proof {
        reveal(Seq::filter);
        assert(bystanders(all_atoms@.take(0), atom) =~= Seq::<AtomId>::empty());
    }
    while k < all_atoms.len()
        invariant
            k <= all_atoms@.len(),
            by@ == bystanders(all_atoms@.take(k as int), atom),
        decreases all_atoms.len() - k,
    {
        proof {
            assert(all_atoms@.take(k + 1).drop_last() =~= all_atoms@.take(k as int));
            reveal(Seq::filter);
        }
        let a = all_atoms[k];
        if a != atom {
            by.push(a);
        }
        k += 1;
    }
    proof {
        assert(all_atoms@.take(all_atoms@.len() as int) =~= all_atoms@);
        assert(by@ == bystanders(all_atoms@, atom));
    }
    if by.len() == 0 {
        bucket.push(NeutralAtomAction::GlobalRy { theta_rad: theta, duration_us });
        return;
    }
    let ghost b0 = bucket@;
    bucket.push(NeutralAtomAction::GlobalRy { theta_rad: half, duration_us });
    let ghost b1 = bucket@;
    let mut i: usize = 0;
    while i < by.len()
        invariant
            i <= by@.len(),
            bucket@ == b1 + by@.take(i as int).map_values(|b: AtomId| rz_action(b, PI_BITS, duration_us)),
        decreases by.len() - i,
    {
        bucket.push(NeutralAtomAction::LocalGate { atom: by[i], gate: LocalGateKind::Rz(PI_BITS), duration_us });
        proof {
            assert(by@.take(i + 1).map_values(|b: AtomId| rz_action(b, PI_BITS, duration_us))
                =~= by@.take(i as int).map_values(|b: AtomId| rz_action(b, PI_BITS, duration_us)).push(
                    rz_action(by@[i as int], PI_BITS, duration_us)));
        }
        i += 1;
    }
    bucket.push(NeutralAtomAction::GlobalRy { theta_rad: half, duration_us });
    let ghost b2 = bucket@;
    let mut i: usize = 0;
    while i < by.len()
        invariant
            i <= by@.len(),
            bucket@ == b2 + by@.take(i as int).map_values(|b: AtomId| rz_action(b, NEG_PI_BITS, duration_us)),
        decreases by.len() - i,
    {
        bucket.push(NeutralAtomAction::LocalGate { atom: by[i], gate: LocalGateKind::Rz(NEG_PI_BITS), duration_us });
        proof {
            assert(by@.take(i + 1).map_values(|b: AtomId| rz_action(b, NEG_PI_BITS, duration_us))
                =~= by@.take(i as int).map_values(|b: AtomId| rz_action(b, NEG_PI_BITS, duration_us)).push(
                    rz_action(by@[i as int], NEG_PI_BITS, duration_us)));
        }
        i += 1;
    }
    proof {
        assert(by@.take(by@.len() as int) =~= by@);
        assert(b1 == b0.push(NeutralAtomAction::GlobalRy { theta_rad: half, duration_us }));
        assert(b2 == b1 + by@.map_values(|b: AtomId| rz_action(b, PI_BITS, duration_us))
            + seq![NeutralAtomAction::GlobalRy { theta_rad: half, duration_us }]);
        assert(bucket@ =~= b0 + seq![NeutralAtomAction::GlobalRy { theta_rad: half, duration_us }]
            + by@.map_values(|b: AtomId| rz_action(b, PI_BITS, duration_us))
            + seq![NeutralAtomAction::GlobalRy { theta_rad: half, duration_us }]
            + by@.map_values(|b: AtomId| rz_action(b, NEG_PI_BITS, duration_us)));
    }
}

} // verus!
