//! Integer bookkeeping of flat AOD movement planning: interaction-pair
//! occupancy and which pairs to vacate before a layer, the entangling gates
//! of a layer, the atoms they touch, and the AOD row / column of a site.

use vstd::prelude::*;

use crate::ids::{AtomId, SiteId};
use crate::schedule::{NeutralAtomAction, ScheduleLayer, insert_sorted_unique, strictly_sorted};

verus! {

broadcast use vstd::std_specs::btree::group_btree_axioms, vstd::laws_cmp::group_laws_cmp;

/// One reserved interaction pair: two sites within Rydberg range.
#[derive(Clone, Copy, Debug, PartialEq, Eq, Structural)]
pub struct InteractionPair {
    pub left: SiteId,
    pub right: SiteId,
}

/// Result of flat AOD movement planning: the expanded layers and counters.
#[derive(Clone, Debug)]
pub struct MovementPlanResult {
    pub layers: Vec<ScheduleLayer>,
    pub rearrangement_steps: u64,
    pub rearrangement_time_us: u64,
    pub trap_transfers: u64,
    pub transfer_time_us: u64,
    pub skipped_already_adjacent: u64,
}

/// Movement-planning failures that need no geometry.
#[derive(Clone, Copy, Debug, PartialEq, Eq, Structural)]
pub enum MovementLayerError {
    /// A multi-qubit entangle the flat planner cannot move for.
    UnsupportedEntangleArity { cycle: u32, k: usize },
    /// A site missing from the AOD grid.
    MissingSite(SiteId),
}

/// The atoms on both sites of a pair, if both are occupied (`occ_site`
/// maps site ids to atom ids).
pub fn pair_occupants(pair: InteractionPair, occ_site: &std::collections::BTreeMap<u32, u32>) -> (r: Option<(AtomId, AtomId)>)
    ensures
        r == (if occ_site@.contains_key(pair.left.0) && occ_site@.contains_key(pair.right.0) {
            Some((AtomId(occ_site@[pair.left.0]), AtomId(occ_site@[pair.right.0])))
        } else {
            None::<(AtomId, AtomId)>
        }),
{
    let a = match occ_site.get(&pair.left.0) {
        Some(a) => *a,
        None => {
            return None;
        },
    };
    let b = match occ_site.get(&pair.right.0) {
        Some(b) => *b,
        None => {
            return None;
        },
    };
    Some((AtomId(a), AtomId(b)))
}

/// Neither site of the pair is occupied.
pub open spec fn pair_free(p: InteractionPair, occ: Map<u32, u32>) -> bool {
    !occ.contains_key(p.left.0) && !occ.contains_key(p.right.0)
}

/// The pairs with both sites empty, in bank order.
pub fn free_interaction_pairs(pairs: &[InteractionPair], occ_site: &std::collections::BTreeMap<u32, u32>) -> (r: Vec<InteractionPair>)
    ensures
        r@ == pairs@.filter(|p: InteractionPair| pair_free(p, occ_site@)),
{
    let mut out: Vec<InteractionPair> = Vec::new();
    let mut k: usize = 0;
    while k < pairs.len()
        invariant
            k <= pairs@.len(),
            out@ == pairs@.take(k as int).filter(|p: InteractionPair| pair_free(p, occ_site@)),
        decreases pairs.len() - k,
    {
        let p = pairs[k];
        proof {
            assert(pairs@.take(k + 1).drop_last() =~= pairs@.take(k as int));
            reveal(Seq::filter);
        }
        if !occ_site.contains_key(&p.left.0) && !occ_site.contains_key(&p.right.0) {
            out.push(p);
        }
        k += 1;
    }
    proof {
        assert(pairs@.take(pairs@.len() as int) =~= pairs@);
    }
    out
}

/// Some action of the layer entangles.
pub open spec fn has_entangle(l: ScheduleLayer) -> bool {
    exists|k: int| 0 <= k < l.actions@.len() && (#[trigger] l.actions@[k] is Entangle2 || l.actions@[k] is EntangleN)
}

/// Whether some action of the layer entangles.
pub fn layer_has_entangle(layer: &ScheduleLayer) -> (b: bool)
    ensures
        b == has_entangle(*layer),
{
    let mut k: usize = 0;
    while k < layer.actions.len()
        invariant
            k <= layer.actions@.len(),
            forall|q: int| 0 <= q < k ==> !(#[trigger] layer.actions@[q] is Entangle2 || layer.actions@[q] is EntangleN),
        decreases layer.actions.len() - k,
    {
        match &layer.actions[k] {
            NeutralAtomAction::Entangle2 { .. } => {
                return true;
            },
            NeutralAtomAction::EntangleN { .. } => {
                return true;
            },
            _ => {},
        }
        k += 1;
    }
    false
}

/// Whether some layer entangles.
pub fn layers_have_entangle(layers: &[ScheduleLayer]) -> (b: bool)
    ensures
        b == exists|i: int| 0 <= i < layers@.len() && has_entangle(#[trigger] layers@[i]),
{
    let mut i: usize = 0;
    while i < layers.len()
        invariant
            i <= layers@.len(),
            forall|q: int| 0 <= q < i ==> !has_entangle(#[trigger] layers@[q]),
        decreases layers.len() - i,
    {
        if layer_has_entangle(&layers[i]) {
            return true;
        }
        i += 1;
    }
    false
}

/// Whether some action of the layer is a multi-qubit entangle.
pub fn layer_has_entangle_n(layer: &ScheduleLayer) -> (b: bool)
    ensures
        b == exists|k: int| 0 <= k < layer.actions@.len() && #[trigger] layer.actions@[k] is EntangleN,
{
    let mut k: usize = 0;
    while k < layer.actions.len()
        invariant
            k <= layer.actions@.len(),
            forall|q: int| 0 <= q < k ==> !(#[trigger] layer.actions@[q] is EntangleN),
        decreases layer.actions.len() - k,
    {
        match &layer.actions[k] {
            NeutralAtomAction::EntangleN { .. } => {
                return true;
            },
            _ => {},
        }
        k += 1;
    }
    false
}

/// How many of the first `m` actions are pair entangles.
pub open spec fn entangle2_count(actions: Seq<NeutralAtomAction>, m: int) -> int
    decreases m,
{
    if m <= 0 {
        0
    } else {
        entangle2_count(actions, m - 1) + (if actions[m - 1] is Entangle2 { 1int } else { 0 })
    }
}

/// The number of pair entangles of a layer.
fn count_entangle2(layer: &ScheduleLayer) -> (c: usize)
    ensures
        c == entangle2_count(layer.actions@, layer.actions@.len() as int),
{
    let mut c: usize = 0;
    let mut k: usize = 0;
    while k < layer.actions.len()
        invariant
            k <= layer.actions@.len(),
            c == entangle2_count(layer.actions@, k as int),
            c <= k,
        decreases layer.actions.len() - k,
    {
        match &layer.actions[k] {
            NeutralAtomAction::Entangle2 { .. } => {
                c += 1;
            },
            _ => {},
        }
        k += 1;
    }
    c
}

/// The most pair entangles in any one layer (0 for no layers).
pub fn max_entangle2_width(layers: &[ScheduleLayer]) -> (w: usize)
    ensures
        forall|i: int| 0 <= i < layers@.len() ==> entangle2_count((#[trigger] layers@[i]).actions@, layers@[i].actions@.len() as int) <= w,
        w == 0 || exists|i: int| 0 <= i < layers@.len() && entangle2_count(layers@[i].actions@, layers@[i].actions@.len() as int) == w,
{
    let mut w: usize = 0;
    let mut i: usize = 0;
    while i < layers.len()
        invariant
            i <= layers@.len(),
            forall|q: int| 0 <= q < i ==> entangle2_count((#[trigger] layers@[q]).actions@, layers@[q].actions@.len() as int) <= w,
            w == 0 || exists|q: int| 0 <= q < i && entangle2_count(layers@[q].actions@, layers@[q].actions@.len() as int) == w,
        decreases layers.len() - i,
    {
        let c = count_entangle2(&layers[i]);
        if c > w {
            w = c;
        }
        i += 1;
    }
    w
}

/// The atom pairs of the first `m` pair entangles, in action order.
pub open spec fn entangle2_pairs(actions: Seq<NeutralAtomAction>, m: int) -> Seq<(AtomId, AtomId)>
    decreases m,
{
    if m <= 0 {
        seq![]
    } else {
        match actions[m - 1] {
            NeutralAtomAction::Entangle2 { atoms, .. } => entangle2_pairs(actions, m - 1).push((atoms@[0], atoms@[1])),
            _ => entangle2_pairs(actions, m - 1),
        }
    }
}

/// The layer's pair entangles as atom pairs; a multi-qubit entangle is
/// refused with its cycle and arity (the first one).
pub fn collect_entangle2(layer: &ScheduleLayer) -> (r: Result<Vec<(AtomId, AtomId)>, MovementLayerError>)
    ensures
        match r {
            Ok(g) => {
                &&& forall|k: int| 0 <= k < layer.actions@.len() ==> !(#[trigger] layer.actions@[k] is EntangleN)
                &&& g@ == entangle2_pairs(layer.actions@, layer.actions@.len() as int)
            },
            Err(e) => exists|k: int| {
                &&& 0 <= k < layer.actions@.len()
                &&& #[trigger] layer.actions@[k] is EntangleN
                &&& forall|q: int| 0 <= q < k ==> !(#[trigger] layer.actions@[q] is EntangleN)
                &&& e == MovementLayerError::UnsupportedEntangleArity { cycle: layer.cycle, k: layer.actions@[k]->EntangleN_atoms@.len() as usize }
            },
        },
{
    let mut gates: Vec<(AtomId, AtomId)> = Vec::new();
    let mut k: usize = 0;
    while k < layer.actions.len()
        invariant
            k <= layer.actions@.len(),
            forall|q: int| 0 <= q < k ==> !(#[trigger] layer.actions@[q] is EntangleN),
            gates@ == entangle2_pairs(layer.actions@, k as int),
        decreases layer.actions.len() - k,
    {
        match &layer.actions[k] {
            NeutralAtomAction::Entangle2 { atoms, .. } => {
                gates.push((atoms[0], atoms[1]));
            },
            NeutralAtomAction::EntangleN { atoms, .. } => {
                return Err(MovementLayerError::UnsupportedEntangleArity { cycle: layer.cycle, k: atoms.len() });
            },
            _ => {},
        }
        k += 1;
    }
    Ok(gates)
}

/// Every atom of the gates, once each, in increasing order.
pub fn gate_atom_set(gates: &[(AtomId, AtomId)]) -> (s: Vec<AtomId>)
    ensures
        strictly_sorted(s@),
        forall|x: AtomId| #[trigger] s@.contains(x) <==> exists|k: int|
            0 <= k < gates@.len() && (gates@[k].0 == x || gates@[k].1 == x),
{
    let mut s: Vec<AtomId> = Vec::new();
    let mut k: usize = 0;
    while k < gates.len()
        invariant
            k <= gates@.len(),
            strictly_sorted(s@),
            forall|x: AtomId| #[trigger] s@.contains(x) <==> exists|q: int|
                0 <= q < k && (gates@[q].0 == x || gates@[q].1 == x),
        decreases gates.len() - k,
    {
        let (a, b) = gates[k];
        insert_sorted_unique(&mut s, a);
        insert_sorted_unique(&mut s, b);
        proof {
            assert forall|x: AtomId| #[trigger] s@.contains(x) <==> exists|q: int|
                0 <= q < k + 1 && (gates@[q].0 == x || gates@[q].1 == x) by {
                if exists|q: int| 0 <= q < k + 1 && (gates@[q].0 == x || gates@[q].1 == x) {
                    let q = choose|q: int| 0 <= q < k + 1 && (gates@[q].0 == x || gates@[q].1 == x);
                    if q < k {
                        assert(exists|q: int| 0 <= q < k && (gates@[q].0 == x || gates@[q].1 == x));
                    }
                }
            }
        }
        k += 1;
    }
    s
}

/// Dense AOD row / column of each site (keyed by site id).
#[derive(Clone, Debug)]
pub struct AodGrid {
    pub site_row_col: std::collections::BTreeMap<u32, (u32, u32)>,
}

impl AodGrid {
    /// The AOD row and column of `site`; a site outside the grid is an error.
    pub fn indices(&self, site: SiteId) -> (r: Result<(u32, u32), MovementLayerError>)
        ensures
            r == (if self.site_row_col@.contains_key(site.0) {
                Ok::<(u32, u32), MovementLayerError>(self.site_row_col@[site.0])
            } else {
                Err::<(u32, u32), MovementLayerError>(MovementLayerError::MissingSite(site))
            }),
    {
        match self.site_row_col.get(&site.0) {
            Some(rc) => Ok(*rc),
            None => Err(MovementLayerError::MissingSite(site)),
        }
    }
}

/// Some next gate shares exactly one atom with the pair `(u, v)`.
pub open spec fn gate_splits_pair(u: u32, v: u32, next_gates: Seq<(AtomId, AtomId)>) -> bool {
    exists|k: int| 0 <= k < next_gates.len() && {
        let g = #[trigger] next_gates[k];
        let share_u = g.0.0 == u || g.1.0 == u;
        let share_v = g.0.0 == v || g.1.0 == v;
        (share_u || share_v) && !(share_u && share_v)
    }
}

/// The occupied pair holding `u` and `v` is vacated before the next layer:
/// unless its own gate comes next, when neither atom is needed next, or when
/// the next layer needs only one of them or splits them across gates.
pub open spec fn must_vacate(u: u32, v: u32, next_atoms: Set<u32>, next_gates: Seq<(AtomId, AtomId)>) -> bool {
    let gate = if u <= v { (u, v) } else { (v, u) };
    if next_gates.contains((AtomId(gate.0), AtomId(gate.1))) {
        false
    } else {
        let u_in = next_atoms.contains(u);
        let v_in = next_atoms.contains(v);
        (!u_in && !v_in) || u_in != v_in || gate_splits_pair(u, v, next_gates)
    }
}

/// The pair is occupied on both sites and must be vacated.
pub open spec fn pair_to_vacate(p: InteractionPair, occ: Map<u32, u32>, next_atoms: Set<u32>, next_gates: Seq<(AtomId, AtomId)>) -> bool {
    &&& occ.contains_key(p.left.0)
    &&& occ.contains_key(p.right.0)
    &&& must_vacate(occ[p.left.0], occ[p.right.0], next_atoms, next_gates)
}

fn gates_contain(next_gates: &Vec<(AtomId, AtomId)>, a: u32, b: u32) -> (r: bool)
    ensures
        r == next_gates@.contains((AtomId(a), AtomId(b))),
{
    let mut k: usize = 0;
    while k < next_gates.len()
        invariant
            k <= next_gates@.len(),
            forall|j: int| 0 <= j < k ==> next_gates@[j] != (AtomId(a), AtomId(b)),
        decreases next_gates.len() - k,
    {
        if next_gates[k].0.0 == a && next_gates[k].1.0 == b {
            proof {
                assert(next_gates@[k as int] == (AtomId(a), AtomId(b)));
            }
            return true;
        }
        k += 1;
    }
    false
}

fn splits(next_gates: &Vec<(AtomId, AtomId)>, u: u32, v: u32) -> (r: bool)
    ensures
        r == gate_splits_pair(u, v, next_gates@),
{
    let mut k: usize = 0;
    while k < next_gates.len()
        invariant
            k <= next_gates@.len(),
            forall|j: int| 0 <= j < k ==> !({
                let g = #[trigger] next_gates@[j];
                let share_u = g.0.0 == u || g.1.0 == u;
                let share_v = g.0.0 == v || g.1.0 == v;
                (share_u || share_v) && !(share_u && share_v)
            }),
        decreases next_gates.len() - k,
    {
        let (a, b) = next_gates[k];
        let share_u = a.0 == u || b.0 == u;
        let share_v = a.0 == v || b.0 == v;
        if (share_u || share_v) && !(share_u && share_v) {
            return true;
        }
        k += 1;
    }
    false
}

/// The pairs to vacate before the next layer, in bank order: occupied pairs
/// whose own gate is not next and whose atoms are not both needed next, or
/// are split across the next gates.
pub fn pairs_to_vacate(pairs: &[InteractionPair], occ_site: &std::collections::BTreeMap<u32, u32>,
    next_atoms: &std::collections::BTreeSet<u32>, next_gates: &Vec<(AtomId, AtomId)>) -> (r: Vec<InteractionPair>)
    ensures
        r@ == pairs@.filter(|p: InteractionPair| pair_to_vacate(p, occ_site@, next_atoms@, next_gates@)),
{
    let mut out: Vec<InteractionPair> = Vec::new();
    let mut k: usize = 0;
    while k < pairs.len()
        invariant
            k <= pairs@.len(),
            out@ == pairs@.take(k as int).filter(|p: InteractionPair| pair_to_vacate(p, occ_site@, next_atoms@, next_gates@)),
        decreases pairs.len() - k,
    {
        let p = pairs[k];
        proof {
            assert(pairs@.take(k + 1).drop_last() =~= pairs@.take(k as int));
            reveal(Seq::filter);
        }
        match pair_occupants(p, occ_site) {
            None => {},
            Some((u, v)) => {
                let (a, b) = if u.0 <= v.0 { (u.0, v.0) } else { (v.0, u.0) };
                if !gates_contain(next_gates, a, b) {
                    let u_in = next_atoms.contains(&u.0);
                    let v_in = next_atoms.contains(&v.0);
                    if (!u_in && !v_in) || u_in != v_in || splits(next_gates, u.0, v.0) {
                        out.push(p);
                    }
                }
            },
        }
        k += 1;
    }
    proof {
        assert(pairs@.take(pairs@.len() as int) =~= pairs@);
    }
    out
}


/// The integer side of a candidate AOD leg: the AOD row and column of its
/// source site, and the dual it belongs to (`u64::MAX` for none).
#[derive(Clone, Copy, Debug, PartialEq, Eq, Structural)]
pub struct LegSlot {
    pub row: u32,
    pub col: u32,
    pub dual_id: u64,
}

/// The AOD rows (or columns) the chosen legs occupy.
pub open spec fn chosen_lines(legs: Seq<LegSlot>, chosen: Seq<usize>, rows: bool) -> Set<u32> {
    chosen.map_values(|j: usize| if rows { legs[j as int].row } else { legs[j as int].col }).to_set()
}

/// Leg `k` may join the chosen legs: no chosen leg of the same dual, none
/// in conflict with it, and the rows and columns stay within the AOD.
pub open spec fn leg_admissible(legs: Seq<LegSlot>, conflicts: Seq<Vec<bool>>, aod_rows: u32, aod_cols: u32,
    chosen: Seq<usize>, k: int) -> bool {
    &&& !(legs[k].dual_id != u64::MAX && exists|p: int| 0 <= p < chosen.len()
        && #[trigger] legs[chosen[p] as int].dual_id == legs[k].dual_id)
    &&& !(exists|p: int| 0 <= p < chosen.len() && #[trigger] conflicts[chosen[p] as int]@[k])
    &&& (chosen_lines(legs, chosen, true).insert(legs[k].row).len() as u32) <= aod_rows
    &&& (chosen_lines(legs, chosen, false).insert(legs[k].col).len() as u32) <= aod_cols
}

/// Greedy packing of the first `k` legs, in order: each admissible leg joins.
pub open spec fn packed(legs: Seq<LegSlot>, conflicts: Seq<Vec<bool>>, aod_rows: u32, aod_cols: u32, k: int) -> Seq<usize>
    decreases k,
{
    if k <= 0 {
        seq![]
    } else {
        let c = packed(legs, conflicts, aod_rows, aod_cols, k - 1);
        if leg_admissible(legs, conflicts, aod_rows, aod_cols, c, k - 1) {
            c.push((k - 1) as usize)
        } else {
            c
        }
    }
}

proof fn lemma_packed(legs: Seq<LegSlot>, conflicts: Seq<Vec<bool>>, aod_rows: u32, aod_cols: u32, k: int)
    requires
        0 <= k <= legs.len(),
        legs.len() <= usize::MAX,
    ensures
        ({
            let c = packed(legs, conflicts, aod_rows, aod_cols, k);
            &&& forall|p: int| 0 <= p < c.len() ==> (#[trigger] c[p] as int) < k
            &&& forall|p: int, q: int| 0 <= p < q < c.len() ==> #[trigger] c[p] < #[trigger] c[q]
            &&& forall|p: int, q: int| 0 <= p < q < c.len() ==> !(#[trigger] conflicts[c[p] as int]@[#[trigger] c[q] as int])
            &&& forall|p: int, q: int| 0 <= p < q < c.len() && legs[c[q] as int].dual_id != u64::MAX
                ==> legs[#[trigger] c[p] as int].dual_id != legs[#[trigger] c[q] as int].dual_id
        }),
    decreases k,
{
    if k > 0 {
        lemma_packed(legs, conflicts, aod_rows, aod_cols, k - 1);
        let c = packed(legs, conflicts, aod_rows, aod_cols, k - 1);
        if leg_admissible(legs, conflicts, aod_rows, aod_cols, c, k - 1) {
            let d = c.push((k - 1) as usize);
            assert forall|p: int, q: int| 0 <= p < q < d.len() implies !(#[trigger] conflicts[d[p] as int]@[#[trigger] d[q] as int]) by {
                if q == c.len() {
                    assert(d[p] == c[p]);
                    if conflicts[c[p] as int]@[k - 1] {
                        assert(exists|p2: int| 0 <= p2 < c.len() && #[trigger] conflicts[c[p2] as int]@[k - 1]);
                    }
                }
            }
            assert forall|p: int, q: int| 0 <= p < q < d.len() && legs[d[q] as int].dual_id != u64::MAX
                implies legs[#[trigger] d[p] as int].dual_id != legs[#[trigger] d[q] as int].dual_id by {
                if q == c.len() {
                    assert(d[p] == c[p]);
                    if legs[c[p] as int].dual_id == legs[k - 1].dual_id {
                        assert(exists|p2: int| 0 <= p2 < c.len() && #[trigger] legs[c[p2] as int].dual_id == legs[k - 1].dual_id);
                    }
                }
            }
        }
    }
}

fn has_line(v: &Vec<u32>, x: u32) -> (b: bool)
    ensures
        b == v@.contains(x),
{
    let mut i: usize = 0;
    while i < v.len()
        invariant
            i <= v@.len(),
            forall|q: int| 0 <= q < i ==> v@[q] != x,
        decreases v.len() - i,
    {
        if v[i] == x {
            return true;
        }
        i += 1;
    }
    false
}

/// The number of lines after adding `x` to the distinct lines `v`.
proof fn lemma_lines_insert(v: Seq<u32>, x: u32)
    requires
        v.no_duplicates(),
    ensures
        v.to_set().insert(x).len() == if v.contains(x) { v.len() } else { v.len() + 1 },
{
    v.unique_seq_to_set();
    if v.contains(x) {
        assert(v.to_set().insert(x) =~= v.to_set());
    } else {
        let w = v.push(x);
        assert(w.no_duplicates()) by {
            assert forall|p: int, q: int| 0 <= p < q < w.len() implies w[p] != w[q] by {
                if q == v.len() {
                    assert(v.contains(v[p]));
                }
            }
        }
        assert(w.to_set() =~= v.to_set().insert(x)) by {
            assert forall|y: u32| #[trigger] w.to_set().contains(y) <==> v.to_set().insert(x).contains(y) by {
                if w.contains(y) && y != x {
                    let q = choose|q: int| 0 <= q < w.len() && w[q] == y;
                    assert(v[q] == y);
                }
                if v.contains(y) {
                    let q = choose|q: int| 0 <= q < v.len() && v[q] == y;
                    assert(w[q] == y);
                }
                if y == x {
                    assert(w[v.len() as int] == x);
                }
            }
        }
        w.unique_seq_to_set();
    }
}

proof fn lemma_lines_push(legs: Seq<LegSlot>, c: Seq<usize>, k: usize, rows: bool)
    ensures
        chosen_lines(legs, c.push(k), rows) == chosen_lines(legs, c, rows).insert(
            if rows { legs[k as int].row } else { legs[k as int].col }),
{
    let f = |j: usize| if rows { legs[j as int].row } else { legs[j as int].col };
    let m = c.map_values(f);
    assert(c.push(k).map_values(f) =~= m.push(f(k)));
    assert(m.push(f(k)).to_set() =~= m.to_set().insert(f(k))) by {
        let w = m.push(f(k));
        assert forall|y: u32| #[trigger] w.to_set().contains(y) <==> m.to_set().insert(f(k)).contains(y) by {
            if w.contains(y) && y != f(k) {
                let q = choose|q: int| 0 <= q < w.len() && w[q] == y;
                assert(m[q] == y);
            }
            if m.contains(y) {
                let q = choose|q: int| 0 <= q < m.len() && m[q] == y;
                assert(w[q] == y);
            }
            if y == f(k) {
                assert(w[m.len() as int] == y);
            }
        }
    }
}

proof fn lemma_line_vec_push(v: Seq<u32>, x: u32, added: bool)
    requires
        v.no_duplicates(),
        added == !v.contains(x),
    ensures
        ({
            let w = if added { v.push(x) } else { v };
            w.no_duplicates() && w.to_set() == v.to_set().insert(x)
        }),
{
    if added {
        let w = v.push(x);
        assert(w.no_duplicates()) by {
            assert forall|p: int, q: int| 0 <= p < q < w.len() implies w[p] != w[q] by {
                if q == v.len() {
                    assert(v.contains(v[p]));
                }
            }
        }
        assert(w.to_set() =~= v.to_set().insert(x)) by {
            assert forall|y: u32| #[trigger] w.to_set().contains(y) <==> v.to_set().insert(x).contains(y) by {
                if w.contains(y) && y != x {
                    let q = choose|q: int| 0 <= q < w.len() && w[q] == y;
                    assert(v[q] == y);
                }
                if v.contains(y) {
                    let q = choose|q: int| 0 <= q < v.len() && v[q] == y;
                    assert(w[q] == y);
                }
                if y == x {
                    assert(w[v.len() as int] == y);
                }
            }
        }
    } else {
        assert(v.to_set().insert(x) =~= v.to_set());
    }
}

/// Greedily pack legs into one AOD step, in the given order: a leg joins
/// unless a chosen leg belongs to the same dual, conflicts with it
/// (`conflicts[i][j]`: legs `i` and `j` cannot share a step), or it would
/// need more AOD rows or columns than there are. Returns the chosen indices.
pub fn pack_legs_greedy(legs: &Vec<LegSlot>, conflicts: &Vec<Vec<bool>>, aod_rows: u32, aod_cols: u32)
    -> (chosen: Vec<usize>)
    requires
        conflicts@.len() == legs@.len(),
        forall|i: int| 0 <= i < legs@.len() ==> (#[trigger] conflicts@[i])@.len() == legs@.len(),
    ensures
        chosen@ == packed(legs@, conflicts@, aod_rows, aod_cols, legs@.len() as int),
        forall|p: int, q: int| 0 <= p < q < chosen@.len() ==> #[trigger] chosen@[p] < #[trigger] chosen@[q],
        forall|p: int, q: int| 0 <= p < q < chosen@.len() ==> !(#[trigger] conflicts@[chosen@[p] as int])@[#[trigger] chosen@[q] as int],
        forall|p: int, q: int| 0 <= p < q < chosen@.len() && legs@[chosen@[q] as int].dual_id != u64::MAX
            ==> legs@[#[trigger] chosen@[p] as int].dual_id != legs@[#[trigger] chosen@[q] as int].dual_id,
{
    let mut chosen: Vec<usize> = Vec::new();
    let mut rows: Vec<u32> = Vec::new();
    let mut cols: Vec<u32> = Vec::new();
    let mut k: usize = 0;
    while k < legs.len()
        invariant
            k <= legs@.len(),
            conflicts@.len() == legs@.len(),
            forall|i: int| 0 <= i < legs@.len() ==> (#[trigger] conflicts@[i])@.len() == legs@.len(),
            chosen@ == packed(legs@, conflicts@, aod_rows, aod_cols, k as int),
            forall|p: int| 0 <= p < chosen@.len() ==> (#[trigger] chosen@[p] as int) < k,
            rows@.no_duplicates(),
            cols@.no_duplicates(),
            rows@.len() <= chosen@.len(),
            cols@.len() <= chosen@.len(),
            chosen@.len() <= k,
            rows@.to_set() == chosen_lines(legs@, chosen@, true),
            cols@.to_set() == chosen_lines(legs@, chosen@, false),
        decreases legs.len() - k,
    {
        proof {
            lemma_packed(legs@, conflicts@, aod_rows, aod_cols, k as int);
        }
        let leg = legs[k];
        let mut dual_used = false;
        let mut clash = false;
        let mut p: usize = 0;
        while p < chosen.len()
            invariant
                k < legs@.len(),
                p <= chosen@.len(),
                conflicts@.len() == legs@.len(),
                forall|i: int| 0 <= i < legs@.len() ==> (#[trigger] conflicts@[i])@.len() == legs@.len(),
                forall|q: int| 0 <= q < chosen@.len() ==> (#[trigger] chosen@[q] as int) < k,
                leg == legs@[k as int],
                dual_used == exists|q: int| 0 <= q < p && #[trigger] legs@[chosen@[q] as int].dual_id == leg.dual_id,
                clash == exists|q: int| 0 <= q < p && #[trigger] conflicts@[chosen@[q] as int]@[k as int],
            decreases chosen.len() - p,
        {
            let j = chosen[p];
            if legs[j].dual_id == leg.dual_id {
                dual_used = true;
            }
            if conflicts[j][k] {
                clash = true;
            }
            proof {
                if dual_used && !(legs@[chosen@[p as int] as int].dual_id == leg.dual_id) {
                    let q = choose|q: int| 0 <= q < p && #[trigger] legs@[chosen@[q] as int].dual_id == leg.dual_id;
                    assert(0 <= q < p + 1);
                }
                if clash && !conflicts@[chosen@[p as int] as int]@[k as int] {
                    let q = choose|q: int| 0 <= q < p && #[trigger] conflicts@[chosen@[q] as int]@[k as int];
                    assert(0 <= q < p + 1);
                }
            }
            p += 1;
        }
        let new_row = !has_line(&rows, leg.row);
        let new_col = !has_line(&cols, leg.col);
        proof {
            lemma_lines_insert(rows@, leg.row);
            lemma_lines_insert(cols@, leg.col);
        }
        let row_count = if new_row { rows.len() + 1 } else { rows.len() };
        let col_count = if new_col { cols.len() + 1 } else { cols.len() };
        let fits_rows = (row_count as u32) <= aod_rows;
        let fits_cols = (col_count as u32) <= aod_cols;
        let ghost c = chosen@;
        let ghost old_rows = rows@;
        let ghost old_cols = cols@;
        if !(leg.dual_id != u64::MAX && dual_used) && !clash && fits_rows && fits_cols {
            proof {
                assert(leg_admissible(legs@, conflicts@, aod_rows, aod_cols, c, k as int));
            }
            chosen.push(k);
            if new_row {
                rows.push(leg.row);
            }
            if new_col {
                cols.push(leg.col);
            }
            proof {
                assert(chosen@ =~= packed(legs@, conflicts@, aod_rows, aod_cols, k + 1));
                lemma_lines_push(legs@, c, k, true);
                lemma_lines_push(legs@, c, k, false);
                lemma_line_vec_push(old_rows, leg.row, new_row);
                lemma_line_vec_push(old_cols, leg.col, new_col);
            }
        } else {
            proof {
                assert(!leg_admissible(legs@, conflicts@, aod_rows, aod_cols, c, k as int));
            }
        }
        k += 1;
    }
    proof {
        lemma_packed(legs@, conflicts@, aod_rows, aod_cols, legs@.len() as int);
    }
    chosen
}


/// The integer side of a dual candidate: which gate it serves, the free pair
/// it lands on, the sites its legs go to, and a key ordered as its longest
/// leg's distance.
#[derive(Clone, Debug)]
pub struct DualSlot {
    pub distance_key: u64,
    pub gate_lhs: AtomId,
    pub gate_rhs: AtomId,
    pub pair: InteractionPair,
    pub dests: Vec<SiteId>,
}

/// Dual `i` comes before dual `j`: longer first, then by gate atoms, then by
/// the pair's left site, then by position.
pub open spec fn dual_before(d: Seq<DualSlot>, i: int, j: int) -> bool {
    let (a, b) = (d[i], d[j]);
    ||| a.distance_key > b.distance_key
    ||| a.distance_key == b.distance_key && a.gate_lhs.0 < b.gate_lhs.0
    ||| a.distance_key == b.distance_key && a.gate_lhs.0 == b.gate_lhs.0 && a.gate_rhs.0 < b.gate_rhs.0
    ||| a.distance_key == b.distance_key && a.gate_lhs.0 == b.gate_lhs.0 && a.gate_rhs.0 == b.gate_rhs.0
        && a.pair.left.0 < b.pair.left.0
    ||| a.distance_key == b.distance_key && a.gate_lhs.0 == b.gate_lhs.0 && a.gate_rhs.0 == b.gate_rhs.0
        && a.pair.left.0 == b.pair.left.0 && i < j
}

/// `ord` lists every dual once, in `dual_before` order.
pub open spec fn sorted_duals(d: Seq<DualSlot>, ord: Seq<usize>) -> bool {
    &&& ord.len() == d.len()
    &&& forall|p: int| 0 <= p < ord.len() ==> (#[trigger] ord[p] as int) < d.len()
    &&& forall|p: int, q: int| 0 <= p < q < ord.len() ==> dual_before(d, #[trigger] ord[p] as int, #[trigger] ord[q] as int)
}

/// Which gate a dual serves.
pub open spec fn gate_of(d: DualSlot) -> (AtomId, AtomId) {
    (d.gate_lhs, d.gate_rhs)
}

/// The same gate, whichever way round its atoms are.
pub open spec fn same_gate(g: (AtomId, AtomId), h: (AtomId, AtomId)) -> bool {
    (g.0 == h.0 && g.1 == h.1) || (g.0 == h.1 && g.1 == h.0)
}

/// A site of a chosen dual's pair.
pub open spec fn site_taken(d: Seq<DualSlot>, chosen: Seq<usize>, s: SiteId) -> bool {
    exists|p: int| 0 <= p < chosen.len() && (#[trigger] d[chosen[p] as int].pair.left == s || d[chosen[p] as int].pair.right == s)
}

/// Dual `i` may join the chosen ones: its gate is not served yet, and
/// neither its pair nor any of its destinations is a chosen pair's site.
pub open spec fn dual_free(d: Seq<DualSlot>, chosen: Seq<usize>, i: int) -> bool {
    &&& !exists|p: int| 0 <= p < chosen.len() && same_gate(#[trigger] gate_of(d[chosen[p] as int]), gate_of(d[i]))
    &&& !site_taken(d, chosen, d[i].pair.left)
    &&& !site_taken(d, chosen, d[i].pair.right)
    &&& forall|t: int| 0 <= t < d[i].dests@.len() ==> !site_taken(d, chosen, #[trigger] d[i].dests@[t])
}

/// Greedy selection over the first `k` duals of the order `ord`.
pub open spec fn picked(d: Seq<DualSlot>, ord: Seq<usize>, k: int) -> Seq<usize>
    decreases k,
{
    if k <= 0 {
        seq![]
    } else {
        let c = picked(d, ord, k - 1);
        if dual_free(d, c, ord[k - 1] as int) { c.push(ord[k - 1]) } else { c }
    }
}

/// Dual `j` keeps clear of dual `i`: another gate, and neither its pair nor
/// its destinations on `i`'s pair.
pub open spec fn duals_compatible(d: Seq<DualSlot>, i: int, j: int) -> bool {
    let pi = d[i].pair;
    &&& !same_gate(gate_of(d[i]), gate_of(d[j]))
    &&& d[j].pair.left != pi.left && d[j].pair.left != pi.right
    &&& d[j].pair.right != pi.left && d[j].pair.right != pi.right
    &&& forall|t: int| 0 <= t < d[j].dests@.len() ==> #[trigger] d[j].dests@[t] != pi.left && d[j].dests@[t] != pi.right
}

proof fn lemma_picked(d: Seq<DualSlot>, ord: Seq<usize>, k: int)
    requires
        0 <= k <= ord.len(),
    ensures
        forall|p: int, q: int| 0 <= p < q < picked(d, ord, k).len() ==>
            duals_compatible(d, #[trigger] picked(d, ord, k)[p] as int, #[trigger] picked(d, ord, k)[q] as int),
    decreases k,
{
    if k > 0 {
        lemma_picked(d, ord, k - 1);
        let c = picked(d, ord, k - 1);
        let i = ord[k - 1] as int;
        if dual_free(d, c, i) {
            let e = c.push(ord[k - 1]);
            assert forall|p: int, q: int| 0 <= p < q < e.len() implies duals_compatible(d, #[trigger] e[p] as int, #[trigger] e[q] as int) by {
                if q == c.len() {
                    let j = c[p] as int;
                    assert(e[p] == c[p]);
                    if same_gate(gate_of(d[j]), gate_of(d[i])) {
                        assert(exists|p2: int| 0 <= p2 < c.len() && same_gate(#[trigger] gate_of(d[c[p2] as int]), gate_of(d[i])));
                    }
                    assert(site_taken(d, c, d[j].pair.left));
                    assert(site_taken(d, c, d[j].pair.right));
                    assert forall|t: int| 0 <= t < d[i].dests@.len() implies #[trigger] d[i].dests@[t] != d[j].pair.left
                        && d[i].dests@[t] != d[j].pair.right by {
                        assert(!site_taken(d, c, d[i].dests@[t]));
                    }
                } else {
                    assert(e[p] == c[p] && e[q] == c[q]);
                }
            }
        }
    }
}

fn dual_precedes(d: &Vec<DualSlot>, i: usize, j: usize) -> (b: bool)
    requires
        i < d@.len(),
        j < d@.len(),
    ensures
        b == dual_before(d@, i as int, j as int),
{
    let (a, b) = (&d[i], &d[j]);
    if a.distance_key != b.distance_key {
        return a.distance_key > b.distance_key;
    }
    if a.gate_lhs.0 != b.gate_lhs.0 {
        return a.gate_lhs.0 < b.gate_lhs.0;
    }
    if a.gate_rhs.0 != b.gate_rhs.0 {
        return a.gate_rhs.0 < b.gate_rhs.0;
    }
    if a.pair.left.0 != b.pair.left.0 {
        return a.pair.left.0 < b.pair.left.0;
    }
    i < j
}

proof fn lemma_dual_before_total(d: Seq<DualSlot>, i: int, j: int)
    ensures
        i != j ==> (dual_before(d, i, j) || dual_before(d, j, i)),
        !(dual_before(d, i, j) && dual_before(d, j, i)),
{
}

proof fn lemma_dual_before_trans(d: Seq<DualSlot>, i: int, j: int, k: int)
    requires
        dual_before(d, i, j),
        dual_before(d, j, k),
    ensures
        dual_before(d, i, k),
{
}

/// Indices of all duals in `dual_before` order (insertion sort).
fn sort_duals(d: &Vec<DualSlot>) -> (ord: Vec<usize>)
    ensures
        sorted_duals(d@, ord@),
{
    let mut ord: Vec<usize> = Vec::new();
    let mut i: usize = 0;
    while i < d.len()
        invariant
            i <= d@.len(),
            ord@.len() == i,
            forall|p: int| 0 <= p < ord@.len() ==> (#[trigger] ord@[p] as int) < i,
            forall|p: int, q: int| 0 <= p < q < ord@.len() ==> dual_before(d@, #[trigger] ord@[p] as int, #[trigger] ord@[q] as int),
        decreases d.len() - i,
    {
        let mut pos: usize = 0;
        while pos < ord.len() && dual_precedes(d, ord[pos], i)
            invariant
                i < d@.len(),
                pos <= ord@.len(),
                forall|p: int| 0 <= p < ord@.len() ==> (#[trigger] ord@[p] as int) < i,
                forall|p: int| 0 <= p < pos ==> dual_before(d@, #[trigger] ord@[p] as int, i as int),
            decreases ord.len() - pos,
        {
            pos += 1;
        }
        proof {
            assert forall|p: int| pos <= p < ord@.len() implies dual_before(d@, i as int, #[trigger] ord@[p] as int) by {
                assert(!dual_before(d@, ord@[pos as int] as int, i as int));
                lemma_dual_before_total(d@, ord@[pos as int] as int, i as int);
                if p > pos {
                    lemma_dual_before_trans(d@, i as int, ord@[pos as int] as int, ord@[p] as int);
                }
            }
        }
        let ghost old_ord = ord@;
        ord.insert(pos, i);
        proof {
            assert forall|p: int, q: int| 0 <= p < q < ord@.len() implies dual_before(d@, #[trigger] ord@[p] as int, #[trigger] ord@[q] as int) by {
                if q < pos {
                    assert(ord@[p] == old_ord[p] && ord@[q] == old_ord[q]);
                } else if q == pos {
                    assert(ord@[p] == old_ord[p]);
                } else if p < pos {
                    assert(ord@[q] == old_ord[q - 1]);
                    assert(ord@[p] == old_ord[p]);
                } else if p == pos {
                    assert(ord@[q] == old_ord[q - 1]);
                } else {
                    assert(ord@[p] == old_ord[p - 1] && ord@[q] == old_ord[q - 1]);
                }
            }
            assert forall|p: int| 0 <= p < ord@.len() implies (#[trigger] ord@[p] as int) < i + 1 by {
                if p < pos {
                    assert(ord@[p] == old_ord[p]);
                } else if p > pos {
                    assert(ord@[p] == old_ord[p - 1]);
                }
            }
        }
        i += 1;
    }
    ord
}

fn site_in(sites: &Vec<SiteId>, s: SiteId) -> (b: bool)
    ensures
        b == sites@.contains(s),
{
    let mut i: usize = 0;
    while i < sites.len()
        invariant
            i <= sites@.len(),
            forall|q: int| 0 <= q < i ==> sites@[q] != s,
        decreases sites.len() - i,
    {
        if sites[i].0 == s.0 {
            return true;
        }
        i += 1;
    }
    false
}

/// Longest-first greedy selection of dual candidates: in `dual_before`
/// order, a dual is taken unless its gate is already served or its pair or
/// one of its destinations is a site of a taken dual's pair. Returns the
/// taken duals' indices in the order they were taken.
pub fn select_duals_sortis(duals: &Vec<DualSlot>) -> (selected: Vec<usize>)
    ensures
        exists|ord: Seq<usize>| sorted_duals(duals@, ord) && selected@ == picked(duals@, ord, duals@.len() as int),
        forall|p: int, q: int| 0 <= p < q < selected@.len() ==>
            duals_compatible(duals@, #[trigger] selected@[p] as int, #[trigger] selected@[q] as int),
{
    let ord = sort_duals(duals);
    let mut selected: Vec<usize> = Vec::new();
    let mut used_sites: Vec<SiteId> = Vec::new();
    let mut k: usize = 0;
    while k < ord.len()
        invariant
            sorted_duals(duals@, ord@),
            k <= ord@.len(),
            selected@ == picked(duals@, ord@, k as int),
            forall|s: SiteId| #[trigger] used_sites@.contains(s) <==> site_taken(duals@, selected@, s),
            forall|p: int| 0 <= p < selected@.len() ==> (#[trigger] selected@[p] as int) < duals@.len(),
        decreases ord.len() - k,
    {
        let i = ord[k];
        let d = &duals[i];
        let mut free = true;
        let mut p: usize = 0;
        while p < selected.len()
            invariant
                p <= selected@.len(),
                i < duals@.len(),
                *d == duals@[i as int],
                forall|q: int| 0 <= q < selected@.len() ==> (#[trigger] selected@[q] as int) < duals@.len(),
                free == !exists|q: int| 0 <= q < p && same_gate(#[trigger] gate_of(duals@[selected@[q] as int]), gate_of(*d)),
            decreases selected.len() - p,
        {
            let g = &duals[selected[p]];
            if (g.gate_lhs.0 == d.gate_lhs.0 && g.gate_rhs.0 == d.gate_rhs.0)
                || (g.gate_lhs.0 == d.gate_rhs.0 && g.gate_rhs.0 == d.gate_lhs.0) {
                free = false;
            }
            proof {
                if !free && !same_gate(gate_of(duals@[selected@[p as int] as int]), gate_of(*d)) {
                    let q = choose|q: int| 0 <= q < p && same_gate(#[trigger] gate_of(duals@[selected@[q] as int]), gate_of(*d));
                    assert(0 <= q < p + 1);
                }
            }
            p += 1;
        }
        let sites_free = !site_in(&used_sites, d.pair.left) && !site_in(&used_sites, d.pair.right);
        let mut dests_free = true;
        let mut t: usize = 0;
        while t < d.dests.len()
            invariant
                t <= d.dests@.len(),
                dests_free == forall|u: int| 0 <= u < t ==> !site_taken(duals@, selected@, #[trigger] d.dests@[u]),
                forall|s: SiteId| #[trigger] used_sites@.contains(s) <==> site_taken(duals@, selected@, s),
            decreases d.dests.len() - t,
        {
            if site_in(&used_sites, d.dests[t]) {
                dests_free = false;
            }
            proof {
                if !dests_free && !site_taken(duals@, selected@, d.dests@[t as int]) {
                    let u = choose|u: int| 0 <= u < t && site_taken(duals@, selected@, #[trigger] d.dests@[u]);
                    assert(0 <= u < t + 1);
                }
            }
            t += 1;
        }
        let free = free && sites_free && dests_free;
        proof {
            assert(free == dual_free(duals@, selected@, i as int));
        }
        let ghost c = selected@;
        let ghost old_used = used_sites@;
        if free {
            selected.push(i);
            used_sites.push(d.pair.left);
            used_sites.push(d.pair.right);
            proof {
                assert(selected@ == c.push(i));
                assert forall|q: int| 0 <= q < c.len() implies selected@[q] == c[q] by {}
                assert forall|s: SiteId| #[trigger] used_sites@.contains(s) <==> site_taken(duals@, selected@, s) by {
                    if site_taken(duals@, c, s) {
                        let q = choose|q: int| 0 <= q < c.len() && (#[trigger] duals@[c[q] as int].pair.left == s || duals@[c[q] as int].pair.right == s);
                        assert(selected@[q] == c[q]);
                    }
                    if old_used.contains(s) {
                        let u = choose|u: int| 0 <= u < old_used.len() && old_used[u] == s;
                        assert(used_sites@[u] == s);
                    }
                    if used_sites@.contains(s) {
                        let u = choose|u: int| 0 <= u < used_sites@.len() && used_sites@[u] == s;
                        if u < old_used.len() {
                            assert(old_used[u] == s);
                            assert(old_used.contains(s));
                        } else {
                            assert(selected@[c.len() as int] == i);
                            assert(duals@[selected@[c.len() as int] as int].pair.left == s || duals@[selected@[c.len() as int] as int].pair.right == s);
                        }
                    }
                    if site_taken(duals@, selected@, s) {
                        let q = choose|q: int| 0 <= q < selected@.len() && (#[trigger] duals@[selected@[q] as int].pair.left == s || duals@[selected@[q] as int].pair.right == s);
                        if q < c.len() {
                            assert(c[q] == selected@[q]);
                            assert(site_taken(duals@, c, s));
                            assert(old_used.contains(s));
                        } else {
                            assert(used_sites@[used_sites@.len() - 1] == d.pair.right);
                            assert(used_sites@[used_sites@.len() - 2] == d.pair.left);
                        }
                    }
                }
            }
        }
        k += 1;
    }
    proof {
        assert(sorted_duals(duals@, ord@) && selected@ == picked(duals@, ord@, duals@.len() as int));
        lemma_picked(duals@, ord@, duals@.len() as int);
    }
    selected
}

} // verus!
