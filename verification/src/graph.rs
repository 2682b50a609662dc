//! Interactions of an interaction graph, their segments, dependency-DAG
//! layering with critical-path marking, and the integer edge sets of the
//! synthetic commutation graphs.

use vstd::prelude::*;

use crate::ids::{InteractionId, LogicalQubitId};

verus! {

/// One multi-qubit entangling interaction.
#[derive(Clone, Debug)]
pub struct Interaction {
    pub id: InteractionId,
    /// Canonical sorted unique qubit ids (at least two).
    pub qubits: Vec<LogicalQubitId>,
    pub gate_name: String,
    /// ASAP dependency-DAG layer within the enclosing segment.
    pub dag_layer: u32,
    /// True iff the interaction lies on some longest path of its segment's DAG.
    pub on_critical_path: bool,
}

/// How the interactions of a segment may be ordered.
#[derive(Clone, Copy, Debug, PartialEq, Eq, Structural)]
pub enum SegmentKind {
    /// Order is free among the interactions.
    CommutationGroup,
    /// Ordered dependency DAG.
    DependencyDag,
}

/// A barrier-bounded group of interactions.
#[derive(Clone, Debug)]
pub struct InteractionSegment {
    pub kind: SegmentKind,
    pub interactions: Vec<InteractionId>,
}

/// Gate `g` acts on qubit `q`.
pub open spec fn gate_uses(g: Interaction, q: u32) -> bool {
    exists|k: int| 0 <= k < g.qubits@.len() && (#[trigger] g.qubits@[k]).0 == q
}

/// The last gate strictly before gate `i` that acts on qubit `q`.
pub open spec fn last_on(gates: Seq<Interaction>, q: u32, i: int) -> Option<int>
    decreases i,
{
    if i <= 0 {
        None
    } else if gate_uses(gates[i - 1], q) {
        Some(i - 1)
    } else {
        last_on(gates, q, i - 1)
    }
}

/// What `last_on` finds: the latest earlier gate on the qubit, if any.
pub proof fn lemma_last_on(gates: Seq<Interaction>, q: u32, i: int)
    requires
        0 <= i <= gates.len(),
    ensures
        match last_on(gates, q, i) {
            Some(j) => 0 <= j < i && gate_uses(gates[j], q),
            None => true,
        },
    decreases i,
{
    if i > 0 {
        lemma_last_on(gates, q, i - 1);
    }
}

/// Gate `p` directly precedes gate `i`: it was the last gate on one of `i`'s qubits.
pub open spec fn gate_pred(gates: Seq<Interaction>, p: int, i: int) -> bool {
    &&& 0 <= p < i < gates.len()
    &&& exists|q: u32| gate_uses(gates[i], q) && #[trigger] last_on(gates, q, i) == Some(p)
}

/// `asap[i]` is one past its latest predecessor's, or 0 without predecessors.
pub open spec fn chain_to_exact(gates: Seq<Interaction>, asap: Seq<int>, i: int) -> bool {
    (asap[i] == 0 && !exists|p: int| gate_pred(gates, p, i))
        || exists|p: int| gate_pred(gates, p, i) && asap[i] == asap[p] + 1
}

/// `suf[i]` is one past its longest successor's, or 0 without successors.
pub open spec fn chain_from_exact(gates: Seq<Interaction>, suf: Seq<int>, i: int) -> bool {
    (suf[i] == 0 && !exists|s: int| gate_pred(gates, i, s))
        || exists|s: int| gate_pred(gates, i, s) && suf[i] == suf[s] + 1
}

/// `asap[i]` is the number of gates before `i` on the longest predecessor
/// chain ending at `i` (its ASAP layer) and `suf[i]` the number after `i` on
/// the longest successor chain starting at `i`.
pub open spec fn dag_depths_ok(gates: Seq<Interaction>, asap: Seq<int>, suf: Seq<int>) -> bool {
    let n = gates.len();
    &&& asap.len() == n
    &&& suf.len() == n
    &&& forall|p: int, i: int| #[trigger] gate_pred(gates, p, i) ==> asap[i] >= asap[p] + 1
    &&& forall|i: int| 0 <= i < n ==> #[trigger] chain_to_exact(gates, asap, i)
    &&& forall|i: int, s: int| #[trigger] gate_pred(gates, i, s) ==> suf[i] >= suf[s] + 1
    &&& forall|i: int| 0 <= i < n ==> #[trigger] chain_from_exact(gates, suf, i)
}

/// Whether interaction `g` acts on qubit `q`.
fn gate_uses_exec(g: &Interaction, q: u32) -> (b: bool)
    ensures
        b == gate_uses(*g, q),
{
    let mut k: usize = 0;
    while k < g.qubits.len()
        invariant
            k <= g.qubits@.len(),
            forall|j: int| 0 <= j < k ==> (#[trigger] g.qubits@[j]).0 != q,
        decreases g.qubits.len() - k,
    {
        if g.qubits[k].0 == q {
            return true;
        }
        k += 1;
    }
    false
}

/// The last gate before gate `i` acting on qubit `q`.
fn last_gate_on(gates: &Vec<Interaction>, q: u32, i: usize) -> (r: Option<usize>)
    requires
        i <= gates@.len(),
    ensures
        match r {
            Some(p) => last_on(gates@, q, i as int) == Some(p as int),
            None => last_on(gates@, q, i as int) is None,
        },
{
    let mut p: usize = i;
    while p > 0
        invariant
            p <= i <= gates@.len(),
            last_on(gates@, q, i as int) == last_on(gates@, q, p as int),
        decreases p,
    {
        if gate_uses_exec(&gates[p - 1], q) {
            return Some(p - 1);
        }
        p -= 1;
    }
    None
}

/// Direct predecessors of every gate.
fn gate_preds(gates: &Vec<Interaction>) -> (preds: Vec<Vec<usize>>)
    ensures
        preds@.len() == gates@.len(),
        forall|i: int, p: usize| 0 <= i < gates@.len() ==> (#[trigger] preds@[i]@.contains(p) <==> gate_pred(gates@, p as int, i)),
{
    let n = gates.len();
    let mut preds: Vec<Vec<usize>> = Vec::new();
    let mut i: usize = 0;
    while i < n
        invariant
            n == gates@.len(),
            i <= n,
            preds@.len() == i,
            forall|a: int, p: usize| 0 <= a < i ==> (#[trigger] preds@[a]@.contains(p) <==> gate_pred(gates@, p as int, a)),
        decreases n - i,
    {
        let g = &gates[i];
        let mut row: Vec<usize> = Vec::new();
        let mut k: usize = 0;
        while k < g.qubits.len()
            invariant
                i < n,
                n == gates@.len(),
                g == gates@[i as int],
                k <= g.qubits@.len(),
                forall|p: usize| #[trigger] row@.contains(p) <==> exists|j: int|
                    0 <= j < k && last_on(gates@, (#[trigger] g.qubits@[j]).0, i as int) == Some(p as int),
            decreases g.qubits.len() - k,
        {
            let ghost old_row = row@;
            let found = last_gate_on(gates, g.qubits[k].0, i);
            match found {
                Some(p0) => {
                    row.push(p0);
                },
                None => {},
            }
            proof {
                assert forall|p: usize| #[trigger] row@.contains(p) <==> exists|j: int|
                    0 <= j < k + 1 && last_on(gates@, (#[trigger] g.qubits@[j]).0, i as int) == Some(p as int) by {
                    match found {
                        Some(p0) => {
                            assert(row@ == old_row.push(p0));
                            assert(row@.contains(p) <==> old_row.contains(p) || p == p0) by {
                                if row@.contains(p) {
                                    let m = choose|m: int| 0 <= m < row@.len() && row@[m] == p;
                                    if m < old_row.len() {
                                        assert(old_row[m] == p);
                                    }
                                }
                                if old_row.contains(p) {
                                    let m = choose|m: int| 0 <= m < old_row.len() && old_row[m] == p;
                                    assert(row@[m] == p);
                                }
                                if p == p0 {
                                    assert(row@[old_row.len() as int] == p);
                                }
                            }
                        },
                        None => {},
                    }
                    if exists|j: int| 0 <= j < k + 1 && last_on(gates@, (#[trigger] g.qubits@[j]).0, i as int) == Some(p as int) {
                        let j = choose|j: int| 0 <= j < k + 1 && last_on(gates@, (#[trigger] g.qubits@[j]).0, i as int) == Some(p as int);
                        if j < k {
                            assert(exists|j: int| 0 <= j < k && last_on(gates@, (#[trigger] g.qubits@[j]).0, i as int) == Some(p as int));
                        }
                    }
                }
            }
            k += 1;
        }
        proof {
            assert forall|p: usize| #[trigger] row@.contains(p) <==> gate_pred(gates@, p as int, i as int) by {
                if gate_pred(gates@, p as int, i as int) {
                    let q = choose|q: u32| gate_uses(gates@[i as int], q) && #[trigger] last_on(gates@, q, i as int) == Some(p as int);
                    let j = choose|j: int| 0 <= j < g.qubits@.len() && (#[trigger] g.qubits@[j]).0 == q;
                    assert(last_on(gates@, g.qubits@[j].0, i as int) == Some(p as int));
                }
                if row@.contains(p) {
                    let j = choose|j: int| 0 <= j < g.qubits@.len() && last_on(gates@, (#[trigger] g.qubits@[j]).0, i as int) == Some(p as int);
                    assert(gate_uses(gates@[i as int], g.qubits@[j].0));
                    lemma_last_on(gates@, g.qubits@[j].0, i as int);
                }
            }
        }
        preds.push(row);
        i += 1;
    }
    preds
}


/// Direct successors of every gate.
fn gate_succs(preds: &Vec<Vec<usize>>, Ghost(gates): Ghost<Seq<Interaction>>) -> (succs: Vec<Vec<usize>>)
    requires
        preds@.len() == gates.len(),
        forall|i: int, p: usize| 0 <= i < gates.len() ==> (#[trigger] preds@[i]@.contains(p) <==> gate_pred(gates, p as int, i)),
    ensures
        succs@.len() == gates.len(),
        forall|i: int, s: usize| 0 <= i < gates.len() ==> (#[trigger] succs@[i]@.contains(s) <==> gate_pred(gates, i, s as int)),
{
    let n = preds.len();
    let mut succs: Vec<Vec<usize>> = Vec::new();
    let mut z: usize = 0;
    while z < n
        invariant
            z <= n,
            succs@.len() == z,
            forall|a: int| 0 <= a < z ==> succs@[a]@.len() == 0,
        decreases n - z,
    {
        succs.push(Vec::new());
        z += 1;
    }
    let mut s: usize = 0;
    while s < n
        invariant
            n == gates.len(),
            preds@.len() == n,
            forall|i: int, p: usize| 0 <= i < n ==> (#[trigger] preds@[i]@.contains(p) <==> gate_pred(gates, p as int, i)),
            s <= n,
            succs@.len() == n,
            forall|i: int, x: usize| 0 <= i < n ==> (#[trigger] succs@[i]@.contains(x) <==> x < s && gate_pred(gates, i, x as int)),
        decreases n - s,
    {
        let row = &preds[s];
        let mut m: usize = 0;
        while m < row.len()
            invariant
                n == gates.len(),
                s < n,
                row == preds@[s as int],
                forall|p: usize| #[trigger] row@.contains(p) <==> gate_pred(gates, p as int, s as int),
                m <= row@.len(),
                succs@.len() == n,
                forall|i: int, x: usize| 0 <= i < n ==> (#[trigger] succs@[i]@.contains(x) <==> (x < s && gate_pred(gates, i, x as int))
                    || (x == s && exists|j: int| 0 <= j < m && row@[j] == i)),
            decreases row.len() - m,
        {
            let p = row[m];
            proof {
                assert(row@.contains(p));
                let q = choose|q: u32| gate_uses(gates[s as int], q) && #[trigger] last_on(gates, q, s as int) == Some(p as int);
                lemma_last_on(gates, q, s as int);
            }
            let mut r: Vec<usize> = Vec::new();
            std::mem::swap(&mut r, &mut succs[p]);
            let ghost old_r = r@;
            r.push(s);
            std::mem::swap(&mut r, &mut succs[p]);
            proof {
                assert forall|i: int, x: usize| 0 <= i < n implies (#[trigger] succs@[i]@.contains(x) <==> (x < s && gate_pred(gates, i, x as int))
                    || (x == s && exists|j: int| 0 <= j < m + 1 && row@[j] == i)) by {
                    if i == p as int {
                        assert(succs@[i]@ == old_r.push(s));
                        if succs@[i]@.contains(x) {
                            let t = choose|t: int| 0 <= t < succs@[i]@.len() && succs@[i]@[t] == x;
                            if t < old_r.len() {
                                assert(old_r[t] == x);
                                assert(old_r.contains(x));
                            }
                        }
                        if old_r.contains(x) {
                            let t = choose|t: int| 0 <= t < old_r.len() && old_r[t] == x;
                            assert(succs@[i]@[t] == x);
                        }
                        assert(succs@[i]@[old_r.len() as int] == s);
                        assert(row@[m as int] == i);
                    }
                    if x == s && exists|j: int| 0 <= j < m + 1 && row@[j] == i {
                        let j = choose|j: int| 0 <= j < m + 1 && row@[j] == i;
                        if j < m {
                            assert(exists|j: int| 0 <= j < m && row@[j] == i);
                        }
                    }
                }
            }
            m += 1;
        }
        proof {
            assert forall|i: int, x: usize| 0 <= i < n implies (#[trigger] succs@[i]@.contains(x) <==> x < s + 1 && gate_pred(gates, i, x as int)) by {
                if x == s && gate_pred(gates, i, x as int) {
                    assert(row@.contains(i as usize));
                    let j = choose|j: int| 0 <= j < row@.len() && row@[j] == i as usize;
                }
                if succs@[i]@.contains(x) && x == s && !(x < s) {
                    let j = choose|j: int| 0 <= j < row@.len() && row@[j] == i;
                    assert(row@.contains(row@[j]));
                }
            }
        }
        s += 1;
    }
    succs
}

/// ASAP layer of every gate: one past its latest predecessor's layer.
fn asap_layers(preds: &Vec<Vec<usize>>, Ghost(gates): Ghost<Seq<Interaction>>) -> (asap: Vec<u32>)
    requires
        preds@.len() == gates.len(),
        gates.len() <= u32::MAX,
        forall|a: int, p: usize| 0 <= a < gates.len() ==> (#[trigger] preds@[a]@.contains(p) <==> gate_pred(gates, p as int, a)),
    ensures
        asap@.len() == gates.len(),
        forall|q: int| 0 <= q < gates.len() ==> #[trigger] asap@[q] <= q,
        forall|p: int, q: int| #[trigger] gate_pred(gates, p, q) ==> asap@[q] >= asap@[p] + 1,
        forall|q: int| 0 <= q < gates.len() ==> (#[trigger] asap@[q] == 0 && !exists|p: int| gate_pred(gates, p, q))
            || exists|p: int| gate_pred(gates, p, q) && asap@[q] == asap@[p] + 1,
{
    let n = preds.len();
    // ASAP layers, in index order (predecessors come first).
    let mut asap: Vec<u32> = Vec::new();
    let mut i: usize = 0;
    while i < n
        invariant
            n == gates.len(),
            n <= u32::MAX,
            preds@.len() == n,
            forall|a: int, p: usize| 0 <= a < n ==> (#[trigger] preds@[a]@.contains(p) <==> gate_pred(gates, p as int, a)),
            i <= n,
            asap@.len() == i,
            forall|q: int| 0 <= q < i ==> #[trigger] asap@[q] <= q,
            forall|p: int, q: int| #[trigger] gate_pred(gates, p, q) && q < i ==> asap@[q] >= asap@[p] + 1,
            forall|q: int| 0 <= q < i ==> (#[trigger] asap@[q] == 0 && !exists|p: int| gate_pred(gates, p, q))
                || exists|p: int| gate_pred(gates, p, q) && asap@[q] == asap@[p] + 1,
        decreases n - i,
    {
        let row = &preds[i];
        let mut best: u32 = 0;
        let mut m: usize = 0;
        proof {
            assert forall|t: int| 0 <= t < row@.len() implies row@[t] < i && gate_pred(gates, row@[t] as int, i as int) by {
                assert(preds@[i as int]@.contains(row@[t]));
                let q = choose|q: u32| gate_uses(gates[i as int], q) && #[trigger] last_on(gates, q, i as int) == Some(row@[t] as int);
                lemma_last_on(gates, q, i as int);
            }
        }
        while m < row.len()
            invariant
                i < n,
                n <= u32::MAX,
                asap@.len() == i,
                forall|q: int| 0 <= q < i ==> #[trigger] asap@[q] <= q,
                forall|t: int| 0 <= t < row@.len() ==> row@[t] < i && gate_pred(gates, row@[t] as int, i as int),
                m <= row@.len(),
                best <= i,
                forall|t: int| 0 <= t < m ==> best >= asap@[row@[t] as int] + 1,
                best == 0 || exists|t: int| 0 <= t < m && best == asap@[row@[t] as int] + 1,
            decreases row.len() - m,
        {
            let p = row[m];
            if asap[p] + 1 > best {
                best = asap[p] + 1;
            }
            m += 1;
        }
        asap.push(best);
        proof {
            assert forall|p: int, q: int| #[trigger] gate_pred(gates, p, q) && q < i + 1 implies asap@[q] >= asap@[p] + 1 by {
                if q == i {
                    assert(preds@[i as int]@.contains(p as usize));
                    let t = choose|t: int| 0 <= t < row@.len() && row@[t] == p as usize;
                }
            }
            assert forall|q: int| 0 <= q < i + 1 implies (#[trigger] asap@[q] == 0 && !exists|p: int| gate_pred(gates, p, q))
                || exists|p: int| gate_pred(gates, p, q) && asap@[q] == asap@[p] + 1 by {
                if q == i {
                    if best == 0 {
                        if exists|p: int| gate_pred(gates, p, q) {
                            let p = choose|p: int| gate_pred(gates, p, q);
                            assert(preds@[i as int]@.contains(p as usize));
                            let t = choose|t: int| 0 <= t < row@.len() && row@[t] == p as usize;
                        }
                    } else {
                        let t = choose|t: int| 0 <= t < m && best == asap@[row@[t] as int] + 1;
                        assert(gate_pred(gates, row@[t] as int, q));
                    }
                }
            }
        }
        i += 1;
    }
    asap
}

/// Longest successor chain from every gate.
fn suffix_lengths(succs: &Vec<Vec<usize>>, Ghost(gates): Ghost<Seq<Interaction>>) -> (suf: Vec<u32>)
    requires
        succs@.len() == gates.len(),
        gates.len() <= u32::MAX,
        forall|a: int, s: usize| 0 <= a < gates.len() ==> (#[trigger] succs@[a]@.contains(s) <==> gate_pred(gates, a, s as int)),
    ensures
        suf@.len() == gates.len(),
        forall|q: int| 0 <= q < gates.len() ==> #[trigger] suf@[q] < gates.len() - q,
        forall|q: int, s: int| #[trigger] gate_pred(gates, q, s) ==> suf@[q] >= suf@[s] + 1,
        forall|q: int| 0 <= q < gates.len() ==> (#[trigger] suf@[q] == 0 && !exists|s: int| gate_pred(gates, q, s))
            || exists|s: int| gate_pred(gates, q, s) && suf@[q] == suf@[s] + 1,
{
    let n = succs.len();
    // Longest successor chains, in reverse index order.
    let mut suf: Vec<u32> = Vec::new();
    let mut z: usize = 0;
    while z < n
        invariant
            z <= n,
            suf@.len() == z,
            forall|a: int| 0 <= a < z ==> suf@[a] == 0,
        decreases n - z,
    {
        suf.push(0);
        z += 1;
    }
    let mut i: usize = n;
    while i > 0
        invariant
            n == gates.len(),
            n <= u32::MAX,
            succs@.len() == n,
            forall|a: int, s: usize| 0 <= a < n ==> (#[trigger] succs@[a]@.contains(s) <==> gate_pred(gates, a, s as int)),
            i <= n,
            suf@.len() == n,
            forall|q: int| i <= q < n ==> #[trigger] suf@[q] < n - q,
            forall|q: int, s: int| #[trigger] gate_pred(gates, q, s) && q >= i ==> suf@[q] >= suf@[s] + 1,
            forall|q: int| i <= q < n ==> (#[trigger] suf@[q] == 0 && !exists|s: int| gate_pred(gates, q, s))
                || exists|s: int| gate_pred(gates, q, s) && suf@[q] == suf@[s] + 1,
        decreases i,
    {
        i -= 1;
        let row = &succs[i];
        let mut best: u32 = 0;
        let mut m: usize = 0;
        proof {
            assert forall|t: int| 0 <= t < row@.len() implies i < row@[t] < n && gate_pred(gates, i as int, row@[t] as int) by {
                assert(succs@[i as int]@.contains(row@[t]));
                let s = row@[t] as int;
                let q = choose|q: u32| gate_uses(gates[s], q) && #[trigger] last_on(gates, q, s) == Some(i as int);
                lemma_last_on(gates, q, s);
            }
        }
        while m < row.len()
            invariant
                i < n,
                n <= u32::MAX,
                suf@.len() == n,
                forall|q: int| i < q < n ==> #[trigger] suf@[q] < n - q,
                forall|t: int| 0 <= t < row@.len() ==> i < row@[t] < n && gate_pred(gates, i as int, row@[t] as int),
                m <= row@.len(),
                best < n - i,
                forall|t: int| 0 <= t < m ==> best >= suf@[row@[t] as int] + 1,
                best == 0 || exists|t: int| 0 <= t < m && best == suf@[row@[t] as int] + 1,
            decreases row.len() - m,
        {
            let s = row[m];
            if suf[s] + 1 > best {
                best = suf[s] + 1;
            }
            m += 1;
        }
        let ghost old_suf = suf@;
        suf.set(i, best);
        proof {
            assert forall|q: int, s: int| #[trigger] gate_pred(gates, q, s) && q >= i implies suf@[q] >= suf@[s] + 1 by {
                let qq = choose|qq: u32| gate_uses(gates[s], qq) && #[trigger] last_on(gates, qq, s) == Some(q);
                lemma_last_on(gates, qq, s);
                if q == i {
                    assert(succs@[i as int]@.contains(s as usize));
                    let t = choose|t: int| 0 <= t < row@.len() && row@[t] == s as usize;
                }
            }
            assert forall|q: int| i <= q < n implies (#[trigger] suf@[q] == 0 && !exists|s: int| gate_pred(gates, q, s))
                || exists|s: int| gate_pred(gates, q, s) && suf@[q] == suf@[s] + 1 by {
                if q == i {
                    if best == 0 {
                        if exists|s: int| gate_pred(gates, q, s) {
                            let s = choose|s: int| gate_pred(gates, q, s);
                            assert(succs@[i as int]@.contains(s as usize));
                            let t = choose|t: int| 0 <= t < row@.len() && row@[t] == s as usize;
                        }
                    } else {
                        let t = choose|t: int| 0 <= t < m && best == old_suf[row@[t] as int] + 1;
                        assert(gate_pred(gates, q, row@[t] as int));
                    }
                } else {
                    if exists|s: int| gate_pred(gates, q, s) && old_suf[q] == old_suf[s] + 1 {
                        let s = choose|s: int| gate_pred(gates, q, s) && old_suf[q] == old_suf[s] + 1;
                        let qq = choose|qq: u32| gate_uses(gates[s], qq) && #[trigger] last_on(gates, qq, s) == Some(q);
                        lemma_last_on(gates, qq, s);
                        assert(gate_pred(gates, q, s) && suf@[q] == suf@[s] + 1);
                    }
                }
            }
        }
    }
    suf
}

/// The two depth passes together satisfy `dag_depths_ok`.
proof fn lemma_depths_ok(gates: Seq<Interaction>, asap: Seq<u32>, suf: Seq<u32>)
    requires
        asap.len() == gates.len(),
        suf.len() == gates.len(),
        forall|p: int, q: int| #[trigger] gate_pred(gates, p, q) ==> asap[q] >= asap[p] + 1,
        forall|q: int| 0 <= q < gates.len() ==> (#[trigger] asap[q] == 0 && !exists|p: int| gate_pred(gates, p, q))
            || exists|p: int| gate_pred(gates, p, q) && asap[q] == asap[p] + 1,
        forall|q: int, s: int| #[trigger] gate_pred(gates, q, s) ==> suf[q] >= suf[s] + 1,
        forall|q: int| 0 <= q < gates.len() ==> (#[trigger] suf[q] == 0 && !exists|s: int| gate_pred(gates, q, s))
            || exists|s: int| gate_pred(gates, q, s) && suf[q] == suf[s] + 1,
    ensures
        dag_depths_ok(gates, asap.map_values(|c: u32| c as int), suf.map_values(|c: u32| c as int)),
{
    let ai = asap.map_values(|c: u32| c as int);
    let si = suf.map_values(|c: u32| c as int);
    assert forall|p: int, q: int| #[trigger] gate_pred(gates, p, q) implies ai[q] >= ai[p] + 1 by {}
    assert forall|q: int| 0 <= q < gates.len() implies #[trigger] chain_to_exact(gates, ai, q) by {
        if exists|p: int| gate_pred(gates, p, q) && asap[q] == asap[p] + 1 {
            let p = choose|p: int| gate_pred(gates, p, q) && asap[q] == asap[p] + 1;
            assert(gate_pred(gates, p, q) && ai[q] == ai[p] + 1);
        }
    }
    assert forall|q: int, s: int| #[trigger] gate_pred(gates, q, s) implies si[q] >= si[s] + 1 by {}
    assert forall|q: int| 0 <= q < gates.len() implies #[trigger] chain_from_exact(gates, si, q) by {
        if exists|s: int| gate_pred(gates, q, s) && suf[q] == suf[s] + 1 {
            let s = choose|s: int| gate_pred(gates, q, s) && suf[q] == suf[s] + 1;
            assert(gate_pred(gates, q, s) && si[q] == si[s] + 1);
        }
    }
}

/// ASAP layers and longest successor chains of all gates.
fn depth_passes(gates: &Vec<Interaction>) -> (r: (Vec<u32>, Vec<u32>))
    requires
        gates@.len() <= u32::MAX,
    ensures
        r.0@.len() == gates@.len(),
        r.1@.len() == gates@.len(),
        forall|q: int| 0 <= q < gates@.len() ==> #[trigger] r.0@[q] <= q && r.1@[q] < gates@.len() - q,
        dag_depths_ok(gates@, r.0@.map_values(|c: u32| c as int), r.1@.map_values(|c: u32| c as int)),
{
    let preds = gate_preds(gates);
    let succs = gate_succs(&preds, Ghost(gates@));
    let asap = asap_layers(&preds, Ghost(gates@));
    let suf = suffix_lengths(&succs, Ghost(gates@));
    proof {
        lemma_depths_ok(gates@, asap@, suf@);
    }
    (asap, suf)
}

/// The marking left by `mark_critical_path`: same gates, each gate's ASAP
/// layer recorded, and critical exactly when its longest chain through it
/// has the maximum length `g`.
pub open spec fn critical_marking_ok(old: Seq<Interaction>, new: Seq<Interaction>) -> bool {
    &&& new.len() == old.len()
    &&& forall|i: int| 0 <= i < new.len() ==> {
        &&& (#[trigger] new[i]).id == old[i].id
        &&& new[i].qubits@ == old[i].qubits@
        &&& new[i].gate_name@ == old[i].gate_name@
    }
    &&& exists|asap: Seq<int>, suf: Seq<int>, g: int|
        #![trigger dag_depths_ok(old, asap, suf), depth_max(asap, suf, old.len() as int, g)]
    {
        &&& dag_depths_ok(old, asap, suf)
        &&& depth_max(asap, suf, old.len() as int, g)
        &&& forall|i: int| 0 <= i < old.len() ==> (#[trigger] new[i]).dag_layer == asap[i]
            && (new[i].on_critical_path <==> asap[i] + suf[i] == g)
    }
}

/// `g` is the largest `asap[i] + suf[i]` over the first `n` gates.
pub open spec fn depth_max(asap: Seq<int>, suf: Seq<int>, n: int, g: int) -> bool {
    &&& forall|i: int| 0 <= i < n ==> #[trigger] asap[i] + suf[i] <= g
    &&& n > 0 ==> exists|i: int| 0 <= i < n && asap[i] + suf[i] == g
}

/// Mark critical-path interactions of a dependency-DAG segment: record each
/// gate's ASAP layer and flag the gates on a longest dependency chain.
pub fn mark_critical_path(interactions: &mut Vec<Interaction>)
    requires
        old(interactions)@.len() <= u32::MAX,
    ensures
        critical_marking_ok(old(interactions)@, final(interactions)@),
{
    let n = interactions.len();
    let ghost gates = interactions@;
    if n == 0 {
        proof {
            let e = Seq::<int>::empty();
            assert(dag_depths_ok(gates, e, e));
            assert(depth_max(e, e, 0, 0));
        }
        return;
    }
    let (asap, suf) = depth_passes(interactions);
    // The longest chain length overall.
    let mut g: u32 = 0;
    let mut i: usize = 0;
    while i < n
        invariant
            i <= n,
            n <= u32::MAX,
            asap@.len() == n,
            suf@.len() == n,
            forall|q: int| 0 <= q < n ==> #[trigger] asap@[q] <= q && suf@[q] < n - q,
            forall|q: int| 0 <= q < i ==> #[trigger] asap@[q] + suf@[q] <= g,
            (i == 0 && g == 0) || exists|q: int| 0 <= q < i && asap@[q] + suf@[q] == g,
        decreases n - i,
    {
        if asap[i] + suf[i] > g {
            g = asap[i] + suf[i];
        }
        i += 1;
    }
    let mut i: usize = 0;
    while i < n
        invariant
            n == gates.len(),
            n <= u32::MAX,
            i <= n,
            asap@.len() == n,
            suf@.len() == n,
            forall|q: int| 0 <= q < n ==> #[trigger] asap@[q] <= q && suf@[q] < n - q,
            interactions@.len() == n,
            forall|q: int| 0 <= q < n ==> {
                &&& (#[trigger] interactions@[q]).id == gates[q].id
                &&& interactions@[q].qubits@ == gates[q].qubits@
                &&& interactions@[q].gate_name@ == gates[q].gate_name@
            },
            forall|q: int| 0 <= q < i ==> (#[trigger] interactions@[q]).dag_layer == asap@[q]
                && (interactions@[q].on_critical_path <==> asap@[q] + suf@[q] == g),
        decreases n - i,
    {
        let mut gate = Interaction {
            id: InteractionId(0),
            qubits: Vec::new(),
            gate_name: String::new(),
            dag_layer: 0,
            on_critical_path: false,
        };
        std::mem::swap(&mut gate, &mut interactions[i]);
        gate.dag_layer = asap[i];
        gate.on_critical_path = asap[i] + suf[i] == g;
        std::mem::swap(&mut gate, &mut interactions[i]);
        i += 1;
    }
    proof {
        let ai = asap@.map_values(|c: u32| c as int);
        let si = suf@.map_values(|c: u32| c as int);
        assert(forall|q: int| 0 <= q < n ==> #[trigger] ai[q] + si[q] <= g);
        let q0 = choose|q: int| 0 <= q < n && asap@[q] + suf@[q] == g;
        assert(ai[q0] + si[q0] == g);
        assert(depth_max(ai, si, n as int, g as int));
        assert(forall|q: int| 0 <= q < n ==> (#[trigger] interactions@[q]).dag_layer == ai[q]
            && (interactions@[q].on_critical_path <==> ai[q] + si[q] == g));
    }
}

/// Assign ASAP `dag_layer` and critical-path flags for a dependency-DAG segment.
pub fn schedule_dependency_segment(interactions: &mut Vec<Interaction>)
    requires
        old(interactions)@.len() <= u32::MAX,
    ensures
        critical_marking_ok(old(interactions)@, final(interactions)@),
{
    mark_critical_path(interactions);
}

/// Two interactions agree on every field the marking reads or writes.
pub open spec fn same_marked(x: Interaction, y: Interaction) -> bool {
    &&& x.id == y.id
    &&& x.qubits@ == y.qubits@
    &&& x.gate_name@ == y.gate_name@
    &&& x.dag_layer == y.dag_layer
    &&& x.on_critical_path == y.on_critical_path
}

proof fn lemma_asap_unique(gates: Seq<Interaction>, a1: Seq<int>, s1: Seq<int>, a2: Seq<int>, s2: Seq<int>, i: int)
    requires
        dag_depths_ok(gates, a1, s1),
        dag_depths_ok(gates, a2, s2),
        0 <= i < gates.len(),
    ensures
        a1[i] == a2[i],
    decreases i,
{
    assert(chain_to_exact(gates, a1, i));
    assert(chain_to_exact(gates, a2, i));
    if exists|p: int| gate_pred(gates, p, i) {
        let p1 = choose|p: int| gate_pred(gates, p, i) && a1[i] == a1[p] + 1;
        let p2 = choose|p: int| gate_pred(gates, p, i) && a2[i] == a2[p] + 1;
        lemma_asap_unique(gates, a1, s1, a2, s2, p1);
        lemma_asap_unique(gates, a1, s1, a2, s2, p2);
        assert(a1[i] >= a1[p2] + 1);
        assert(a2[i] >= a2[p1] + 1);
    }
}

proof fn lemma_suf_unique(gates: Seq<Interaction>, a1: Seq<int>, s1: Seq<int>, a2: Seq<int>, s2: Seq<int>, i: int)
    requires
        dag_depths_ok(gates, a1, s1),
        dag_depths_ok(gates, a2, s2),
        0 <= i < gates.len(),
    ensures
        s1[i] == s2[i],
    decreases gates.len() - i,
{
    assert(chain_from_exact(gates, s1, i));
    assert(chain_from_exact(gates, s2, i));
    if exists|t: int| gate_pred(gates, i, t) {
        let t1 = choose|t: int| gate_pred(gates, i, t) && s1[i] == s1[t] + 1;
        let t2 = choose|t: int| gate_pred(gates, i, t) && s2[i] == s2[t] + 1;
        lemma_suf_unique(gates, a1, s1, a2, s2, t1);
        lemma_suf_unique(gates, a1, s1, a2, s2, t2);
        assert(s1[i] >= s1[t2] + 1);
        assert(s2[i] >= s2[t1] + 1);
    }
}

/// The critical-path marking is unique: any two markings of the same gates
/// agree, so `schedule_dependency_segment` and `mark_critical_path` give the
/// same ASAP layers and critical flags.
pub proof fn lemma_critical_marking_unique(old: Seq<Interaction>, a: Seq<Interaction>, b: Seq<Interaction>)
    requires
        critical_marking_ok(old, a),
        critical_marking_ok(old, b),
    ensures
        a.len() == b.len(),
        forall|i: int| 0 <= i < a.len() ==> same_marked(#[trigger] a[i], b[i]),
{
    let (a1, s1, g1) = choose|asap: Seq<int>, suf: Seq<int>, g: int|
        #![trigger dag_depths_ok(old, asap, suf), depth_max(asap, suf, old.len() as int, g)]
        dag_depths_ok(old, asap, suf) && depth_max(asap, suf, old.len() as int, g)
        && forall|i: int| 0 <= i < old.len() ==> (#[trigger] a[i]).dag_layer == asap[i]
            && (a[i].on_critical_path <==> asap[i] + suf[i] == g);
    let (a2, s2, g2) = choose|asap: Seq<int>, suf: Seq<int>, g: int|
        #![trigger dag_depths_ok(old, asap, suf), depth_max(asap, suf, old.len() as int, g)]
        dag_depths_ok(old, asap, suf) && depth_max(asap, suf, old.len() as int, g)
        && forall|i: int| 0 <= i < old.len() ==> (#[trigger] b[i]).dag_layer == asap[i]
            && (b[i].on_critical_path <==> asap[i] + suf[i] == g);
    assert forall|i: int| 0 <= i < old.len() implies a1[i] == a2[i] && s1[i] == s2[i] by {
        lemma_asap_unique(old, a1, s1, a2, s2, i);
        lemma_suf_unique(old, a1, s1, a2, s2, i);
    }
    if old.len() > 0 {
        let w1 = choose|i: int| 0 <= i < old.len() && a1[i] + s1[i] == g1;
        let w2 = choose|i: int| 0 <= i < old.len() && a2[i] + s2[i] == g2;
        assert(a2[w1] + s2[w1] <= g2);
        assert(a1[w2] + s1[w2] <= g1);
    }
    assert forall|i: int| 0 <= i < a.len() implies same_marked(#[trigger] a[i], b[i]) by {
        assert(a1[i] == a2[i] && s1[i] == s2[i]);
    }
}

proof fn lemma_last_on_qubits(x: Seq<Interaction>, y: Seq<Interaction>, q: u32, i: int)
    requires
        x.len() == y.len(),
        forall|j: int| 0 <= j < x.len() ==> (#[trigger] x[j]).qubits@ == y[j].qubits@,
        i <= x.len(),
    ensures
        last_on(x, q, i) == last_on(y, q, i),
    decreases i,
{
    if i > 0 {
        assert(x[i - 1].qubits@ == y[i - 1].qubits@);
        assert(gate_uses(x[i - 1], q) == gate_uses(y[i - 1], q));
        lemma_last_on_qubits(x, y, q, i - 1);
    }
}

proof fn lemma_depths_by_qubits(x: Seq<Interaction>, y: Seq<Interaction>, asap: Seq<int>, suf: Seq<int>)
    requires
        x.len() == y.len(),
        forall|j: int| 0 <= j < x.len() ==> (#[trigger] x[j]).qubits@ == y[j].qubits@,
        dag_depths_ok(y, asap, suf),
    ensures
        dag_depths_ok(x, asap, suf),
{
    assert forall|p: int, i: int| gate_pred(x, p, i) == gate_pred(y, p, i) by {
        if 0 <= i < x.len() {
            assert forall|q: u32| gate_uses(x[i], q) == gate_uses(y[i], q) && last_on(x, q, i) == last_on(y, q, i) by {
                assert(x[i].qubits@ == y[i].qubits@);
                lemma_last_on_qubits(x, y, q, i);
            }
            if gate_pred(x, p, i) {
                let q = choose|q: u32| gate_uses(x[i], q) && #[trigger] last_on(x, q, i) == Some(p);
                assert(gate_uses(y[i], q) && last_on(y, q, i) == Some(p));
            }
            if gate_pred(y, p, i) {
                let q = choose|q: u32| gate_uses(y[i], q) && #[trigger] last_on(y, q, i) == Some(p);
                assert(gate_uses(x[i], q) && last_on(x, q, i) == Some(p));
            }
        }
    }
    assert forall|i: int| 0 <= i < x.len() implies #[trigger] chain_to_exact(x, asap, i) by {
        assert(chain_to_exact(y, asap, i));
    }
    assert forall|i: int| 0 <= i < x.len() implies #[trigger] chain_from_exact(x, suf, i) by {
        assert(chain_from_exact(y, suf, i));
    }
}

/// Marking is idempotent: marking an already marked segment again changes
/// nothing, since the marking reads only the qubits and their order.
pub proof fn lemma_critical_marking_idempotent(old: Seq<Interaction>, mid: Seq<Interaction>, fin: Seq<Interaction>)
    requires
        critical_marking_ok(old, mid),
        critical_marking_ok(mid, fin),
    ensures
        fin.len() == mid.len(),
        forall|i: int| 0 <= i < fin.len() ==> same_marked(#[trigger] fin[i], mid[i]),
{
    let (a, s, g) = choose|asap: Seq<int>, suf: Seq<int>, g: int|
        #![trigger dag_depths_ok(mid, asap, suf), depth_max(asap, suf, mid.len() as int, g)]
        dag_depths_ok(mid, asap, suf) && depth_max(asap, suf, mid.len() as int, g)
        && forall|i: int| 0 <= i < mid.len() ==> (#[trigger] fin[i]).dag_layer == asap[i]
            && (fin[i].on_critical_path <==> asap[i] + suf[i] == g);
    assert forall|j: int| 0 <= j < old.len() implies (#[trigger] old[j]).qubits@ == mid[j].qubits@ by {
        assert(mid[j].qubits@ == old[j].qubits@);
    }
    lemma_depths_by_qubits(old, mid, a, s);
    assert(critical_marking_ok(old, fin)) by {
        assert forall|i: int| 0 <= i < fin.len() implies {
            &&& (#[trigger] fin[i]).id == old[i].id
            &&& fin[i].qubits@ == old[i].qubits@
            &&& fin[i].gate_name@ == old[i].gate_name@
        } by {
            assert(mid[i].id == old[i].id);
        }
        assert(dag_depths_ok(old, a, s) && depth_max(a, s, old.len() as int, g));
    }
    lemma_critical_marking_unique(old, fin, mid);
}

/// Lexicographic order on index pairs.
pub open spec fn pair_lt(a: (usize, usize), b: (usize, usize)) -> bool {
    a.0 < b.0 || (a.0 == b.0 && a.1 < b.1)
}

/// Lexicographic order on qubit-id pairs.
pub open spec fn pair_lt_u32(a: (u32, u32), b: (u32, u32)) -> bool {
    a.0 < b.0 || (a.0 == b.0 && a.1 < b.1)
}

/// The pair with the smaller entry first.
pub open spec fn order_pair_spec(a: usize, b: usize) -> (usize, usize) {
    if a < b { (a, b) } else { (b, a) }
}

/// Order two indices so that the smaller comes first.
pub fn order_pair(a: usize, b: usize) -> (r: (usize, usize))
    ensures
        r == order_pair_spec(a, b),
{
    if a < b { (a, b) } else { (b, a) }
}

/// Insert `x` into a strictly increasing list of pairs unless present.
fn insert_pair_sorted(v: &mut Vec<(usize, usize)>, x: (usize, usize))
    requires
        forall|i: int, j: int| 0 <= i < j < old(v)@.len() ==> pair_lt(old(v)@[i], old(v)@[j]),
    ensures
        forall|i: int, j: int| 0 <= i < j < final(v)@.len() ==> pair_lt(final(v)@[i], final(v)@[j]),
        forall|p: (usize, usize)| #[trigger] final(v)@.contains(p) <==> old(v)@.contains(p) || p == x,
{
    let mut k: usize = 0;
    while k < v.len()
        invariant
            k <= v@.len(),
            v@ == old(v)@,
            forall|i: int| 0 <= i < k ==> pair_lt(#[trigger] v@[i], x),
        ensures
            k <= v@.len(),
            forall|i: int| 0 <= i < k ==> pair_lt(#[trigger] v@[i], x),
            k < v@.len() ==> !pair_lt(v@[k as int], x),
        decreases v.len() - k,
    {
        let y = v[k];
        if !(y.0 < x.0 || (y.0 == x.0 && y.1 < x.1)) {
            break;
        }
        k += 1;
    }
    if k < v.len() && v[k].0 == x.0 && v[k].1 == x.1 {
        proof {
            assert(v@[k as int] == x);
        }
        return;
    }
    let ghost ov = v@;
    v.insert(k, x);
    proof {
        assert forall|i: int, j: int| 0 <= i < j < v@.len() implies pair_lt(v@[i], v@[j]) by {
            if j < k {
            } else if j == k {
            } else if i < k {
                assert(pair_lt(ov[i], x));
                assert(!pair_lt(ov[k as int], x) && ov[k as int] != x);
            } else if i == k {
                assert(!pair_lt(ov[k as int], x) && ov[k as int] != x);
                if j - 1 > k {
                    assert(pair_lt(ov[k as int], ov[j - 1]));
                }
            } else {
                assert(pair_lt(ov[i - 1], ov[j - 1]));
            }
        }
        assert forall|p: (usize, usize)| #[trigger] v@.contains(p) <==> ov.contains(p) || p == x by {
            if v@.contains(p) {
                let t = choose|t: int| 0 <= t < v@.len() && v@[t] == p;
                if t < k {
                    assert(ov[t] == p);
                } else if t > k {
                    assert(ov[t - 1] == p);
                }
            }
            if ov.contains(p) {
                let t = choose|t: int| 0 <= t < ov.len() && ov[t] == p;
                if t < k {
                    assert(v@[t] == p);
                } else {
                    assert(v@[t + 1] == p);
                }
            }
            if p == x {
                assert(v@[k as int] == x);
            }
        }
    }
}

/// Insert `x` into a strictly increasing list of pairs unless present.
fn insert_pair_sorted_u32(v: &mut Vec<(u32, u32)>, x: (u32, u32))
    requires
        forall|i: int, j: int| 0 <= i < j < old(v)@.len() ==> pair_lt_u32(old(v)@[i], old(v)@[j]),
    ensures
        forall|i: int, j: int| 0 <= i < j < final(v)@.len() ==> pair_lt_u32(final(v)@[i], final(v)@[j]),
        forall|p: (u32, u32)| #[trigger] final(v)@.contains(p) <==> old(v)@.contains(p) || p == x,
{
    let mut k: usize = 0;
    while k < v.len()
        invariant
            k <= v@.len(),
            v@ == old(v)@,
            forall|i: int| 0 <= i < k ==> pair_lt_u32(#[trigger] v@[i], x),
        ensures
            k <= v@.len(),
            forall|i: int| 0 <= i < k ==> pair_lt_u32(#[trigger] v@[i], x),
            k < v@.len() ==> !pair_lt_u32(v@[k as int], x),
        decreases v.len() - k,
    {
        let y = v[k];
        if !(y.0 < x.0 || (y.0 == x.0 && y.1 < x.1)) {
            break;
        }
        k += 1;
    }
    if k < v.len() && v[k].0 == x.0 && v[k].1 == x.1 {
        proof {
            assert(v@[k as int] == x);
        }
        return;
    }
    let ghost ov = v@;
    v.insert(k, x);
    proof {
        assert forall|i: int, j: int| 0 <= i < j < v@.len() implies pair_lt_u32(v@[i], v@[j]) by {
            if j < k {
            } else if j == k {
            } else if i < k {
                assert(pair_lt_u32(ov[i], x));
                assert(!pair_lt_u32(ov[k as int], x) && ov[k as int] != x);
            } else if i == k {
                assert(!pair_lt_u32(ov[k as int], x) && ov[k as int] != x);
                if j - 1 > k {
                    assert(pair_lt_u32(ov[k as int], ov[j - 1]));
                }
            } else {
                assert(pair_lt_u32(ov[i - 1], ov[j - 1]));
            }
        }
        assert forall|p: (u32, u32)| #[trigger] v@.contains(p) <==> ov.contains(p) || p == x by {
            if v@.contains(p) {
                let t = choose|t: int| 0 <= t < v@.len() && v@[t] == p;
                if t < k {
                    assert(ov[t] == p);
                } else if t > k {
                    assert(ov[t - 1] == p);
                }
            }
            if ov.contains(p) {
                let t = choose|t: int| 0 <= t < ov.len() && ov[t] == p;
                if t < k {
                    assert(v@[t] == p);
                } else {
                    assert(v@[t + 1] == p);
                }
            }
            if p == x {
                assert(v@[k as int] == x);
            }
        }
    }
}

/// `p` is one of the two edges that vertex `i` of C_n(1, n/2) adds: to its
/// ring neighbour and to its antipode, ends ordered.
pub open spec fn cubic_edge(n: int, i: int, p: (usize, usize)) -> bool {
    p == order_pair_spec(i as usize, ((i + 1) % n) as usize) || p == order_pair_spec(i as usize, ((i + n / 2) % n) as usize)
}

/// Edges of the circulant graph C_n(1, n/2): each vertex joins its ring
/// neighbour and its antipode; sorted, each edge once with ends ordered.
pub fn cubic_edges(n: usize) -> (r: Vec<(usize, usize)>)
    requires
        n + n / 2 <= usize::MAX,
    ensures
        forall|i: int, j: int| 0 <= i < j < r@.len() ==> pair_lt(r@[i], r@[j]),
        forall|p: (usize, usize)| #[trigger] r@.contains(p) <==> exists|i: int| 0 <= i < n && #[trigger] cubic_edge(n as int, i, p),
{
    let mut edges: Vec<(usize, usize)> = Vec::new();
    let half = n / 2;
    let mut i: usize = 0;
    while i < n
        invariant
            i <= n,
            n + n / 2 <= usize::MAX,
            half == n / 2,
            forall|a: int, b: int| 0 <= a < b < edges@.len() ==> pair_lt(edges@[a], edges@[b]),
            forall|p: (usize, usize)| #[trigger] edges@.contains(p) <==> exists|k: int| 0 <= k < i && #[trigger] cubic_edge(n as int, k, p),
        decreases n - i,
    {
        let e1 = order_pair(i, (i + 1) % n);
        insert_pair_sorted(&mut edges, e1);
        let e2 = order_pair(i, (i + half) % n);
        insert_pair_sorted(&mut edges, e2);
        proof {
            assert forall|p: (usize, usize)| #[trigger] edges@.contains(p) <==> exists|k: int| 0 <= k < i + 1 && #[trigger] cubic_edge(n as int, k, p) by {
                if exists|k: int| 0 <= k < i + 1 && #[trigger] cubic_edge(n as int, k, p) {
                    let k = choose|k: int| 0 <= k < i + 1 && #[trigger] cubic_edge(n as int, k, p);
                    if k < i {
                        assert(exists|k: int| 0 <= k < i && #[trigger] cubic_edge(n as int, k, p));
                    }
                }
                if p == e1 || p == e2 {
                    assert(cubic_edge(n as int, i as int, p));
                }
            }
        }
        i += 1;
    }
    edges
}

/// `p` is an input edge between two distinct vertices below `n`, ends ordered.
pub open spec fn simple_edge_of(n: u32, e: (u32, u32), p: (u32, u32)) -> bool {
    &&& e.0 != e.1
    &&& e.0 < n
    &&& e.1 < n
    &&& p == (if e.0 < e.1 { (e.0, e.1) } else { (e.1, e.0) })
}

/// The simple undirected edges among `edges` on vertices below `n`: self
/// loops and out-of-range ends dropped, ends ordered, each edge once, sorted.
pub fn unique_undirected_edges(n: u32, edges: &[(u32, u32)]) -> (r: Vec<(u32, u32)>)
    ensures
        forall|i: int, j: int| 0 <= i < j < r@.len() ==> pair_lt_u32(r@[i], r@[j]),
        forall|p: (u32, u32)| #[trigger] r@.contains(p) <==> exists|k: int|
            0 <= k < edges@.len() && #[trigger] simple_edge_of(n, edges@[k], p),
{
    let mut unique: Vec<(u32, u32)> = Vec::new();
    let mut k: usize = 0;
    while k < edges.len()
        invariant
            k <= edges@.len(),
            forall|i: int, j: int| 0 <= i < j < unique@.len() ==> pair_lt_u32(unique@[i], unique@[j]),
            forall|p: (u32, u32)| #[trigger] unique@.contains(p) <==> exists|t: int|
                0 <= t < k && #[trigger] simple_edge_of(n, edges@[t], p),
        decreases edges.len() - k,
    {
        let (a, b) = edges[k];
        if !(a == b || a >= n || b >= n) {
            let e = if a < b { (a, b) } else { (b, a) };
            insert_pair_sorted_u32(&mut unique, e);
            proof {
                assert(simple_edge_of(n, edges@[k as int], e));
            }
        }
        proof {
            assert forall|p: (u32, u32)| #[trigger] unique@.contains(p) <==> exists|t: int|
                0 <= t < k + 1 && #[trigger] simple_edge_of(n, edges@[t], p) by {
                if exists|t: int| 0 <= t < k + 1 && #[trigger] simple_edge_of(n, edges@[t], p) {
                    let t = choose|t: int| 0 <= t < k + 1 && #[trigger] simple_edge_of(n, edges@[t], p);
                    if t < k {
                        assert(exists|t: int| 0 <= t < k && #[trigger] simple_edge_of(n, edges@[t], p));
                    }
                }
            }
        }
        k += 1;
    }
    unique
}

/// One two-qubit `CZ` interaction per edge, with ids `0, 1, ...`, at layer 0
/// and off the critical path, as a commutation group needs.
pub fn commutation_interactions(edges: &Vec<(u32, u32)>) -> (r: Vec<Interaction>)
    requires
        edges@.len() <= u32::MAX,
    ensures
        r@.len() == edges@.len(),
        forall|i: int| 0 <= i < r@.len() ==> {
            &&& (#[trigger] r@[i]).id == InteractionId(i as u32)
            &&& r@[i].qubits@ == seq![LogicalQubitId(edges@[i].0), LogicalQubitId(edges@[i].1)]
            &&& r@[i].gate_name@ == "CZ"@
            &&& r@[i].dag_layer == 0
            &&& !r@[i].on_critical_path
        },
{
    let mut out: Vec<Interaction> = Vec::new();
    let mut i: usize = 0;
    while i < edges.len()
        invariant
            i <= edges@.len(),
            edges@.len() <= u32::MAX,
            out@.len() == i,
            forall|q: int| 0 <= q < i ==> {
                &&& (#[trigger] out@[q]).id == InteractionId(q as u32)
                &&& out@[q].qubits@ == seq![LogicalQubitId(edges@[q].0), LogicalQubitId(edges@[q].1)]
                &&& out@[q].gate_name@ == "CZ"@
                &&& out@[q].dag_layer == 0
                &&& !out@[q].on_critical_path
            },
        decreases edges.len() - i,
    {
        let (a, b) = edges[i];
        let mut qubits: Vec<LogicalQubitId> = Vec::new();
        qubits.push(LogicalQubitId(a));
        qubits.push(LogicalQubitId(b));
        out.push(Interaction {
            id: InteractionId(i as u32),
            qubits,
            gate_name: "CZ".to_owned(),
            dag_layer: 0,
            on_critical_path: false,
        });
        i += 1;
    }
    out
}

/// A single commutation-group segment holding interactions `0..m`, or no
/// segment when there are none.
pub fn commutation_segments(m: u32) -> (r: Vec<InteractionSegment>)
    ensures
        m == 0 ==> r@.len() == 0,
        m > 0 ==> r@.len() == 1 && r@[0].kind == SegmentKind::CommutationGroup
            && r@[0].interactions@ == Seq::new(m as nat, |i: int| InteractionId(i as u32)),
{
    if m == 0 {
        return Vec::new();
    }
    let mut ids: Vec<InteractionId> = Vec::new();
    let mut i: u32 = 0;
    while i < m
        invariant
            i <= m,
            ids@ == Seq::new(i as nat, |q: int| InteractionId(q as u32)),
        decreases m - i,
    {
        ids.push(InteractionId(i));
        proof {
            assert(ids@ =~= Seq::new((i + 1) as nat, |q: int| InteractionId(q as u32)));
        }
        i += 1;
    }
    let mut r: Vec<InteractionSegment> = Vec::new();
    r.push(InteractionSegment { kind: SegmentKind::CommutationGroup, interactions: ids });
    r
}


/// Marking a segment once and marking an equal segment twice give the same
/// gates, ASAP layers and critical flags.
pub proof fn lemma_marking_twice_equals_once(start: Seq<Interaction>, once: Seq<Interaction>, first: Seq<Interaction>,
    twice: Seq<Interaction>)
    requires
        critical_marking_ok(start, once),
        critical_marking_ok(start, first),
        critical_marking_ok(first, twice),
    ensures
        once.len() == twice.len(),
        forall|i: int| 0 <= i < once.len() ==> same_marked(#[trigger] once[i], twice[i]),
{
    lemma_critical_marking_idempotent(start, first, twice);
    lemma_critical_marking_unique(start, once, first);
    assert forall|i: int| 0 <= i < once.len() implies same_marked(#[trigger] once[i], twice[i]) by {
        assert(same_marked(once[i], first[i]));
        assert(same_marked(twice[i], first[i]));
    }
}

} // verus!
