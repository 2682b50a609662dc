//! Dense numbering of wire-tracker roots met while extracting an
//! interaction graph.

use vstd::prelude::*;

use crate::graph::Interaction;
use crate::ids::LogicalQubitId;

verus! {

broadcast use vstd::std_specs::hash::group_hash_axioms;

/// Numbers roots (raw SSA addresses or block-argument indices) `0..n` in
/// first-appearance order.
pub struct RootNumbering {
    dense: std::collections::HashMap<usize, u32>,
    next: u32,
}

impl RootNumbering {
    /// The ids given so far, by root.
    pub closed spec fn ids(&self) -> Map<usize, u32> {
        self.dense@
    }

    /// The id the next new root gets.
    pub closed spec fn next_id(&self) -> u32 {
        self.next
    }

    /// Ids are below the next id and no two roots share one.
    pub open spec fn wf(&self) -> bool {
        &&& forall|r: usize| #[trigger] self.ids().contains_key(r) ==> self.ids()[r] < self.next_id()
        &&& forall|r: usize, s: usize| #[trigger] self.ids().contains_key(r) && #[trigger] self.ids().contains_key(s)
            && r != s ==> self.ids()[r] != self.ids()[s]
    }

    /// No root numbered yet.
    pub fn new() -> (r: Self)
        ensures
            r.wf(),
            r.ids() == Map::<usize, u32>::empty(),
            r.next_id() == 0,
    {
        RootNumbering { dense: std::collections::HashMap::new(), next: 0 }
    }

    /// The id of `root`: the one it already has, or else the next id.
    pub fn id(&mut self, root: usize) -> (q: LogicalQubitId)
        requires
            old(self).wf(),
            old(self).ids().contains_key(root) || old(self).next_id() < u32::MAX,
        ensures
            final(self).wf(),
            old(self).ids().contains_key(root) ==> q.0 == old(self).ids()[root] && final(self).ids() == old(self).ids()
                && final(self).next_id() == old(self).next_id(),
            !old(self).ids().contains_key(root) ==> q.0 == old(self).next_id()
                && final(self).ids() == old(self).ids().insert(root, old(self).next_id())
                && final(self).next_id() == old(self).next_id() + 1,
    {
        match self.dense.get(&root) {
            Some(id) => LogicalQubitId(*id),
            None => {
                let id = self.next;
                self.dense.insert(root, id);
                self.next = id + 1;
                LogicalQubitId(id)
            },
        }
    }
}

impl Default for RootNumbering {
    fn default() -> (r: Self)
        ensures
            r.wf(),
            r.ids() == Map::<usize, u32>::empty(),
            r.next_id() == 0,
    {
        RootNumbering::new()
    }
}

/// Qubit ids sorted strictly increasing.
pub open spec fn qubits_sorted(s: Seq<LogicalQubitId>) -> bool {
    forall|i: int, j: int| 0 <= i < j < s.len() ==> s[i].0 < s[j].0
}

/// The dense id of qubit `q`: its position among the used qubits, or `q`
/// itself if it is not among them.
pub open spec fn dense_qubit(vertices: Seq<LogicalQubitId>, q: LogicalQubitId) -> LogicalQubitId {
    if vertices.contains(q) { LogicalQubitId(vertices.index_of(q) as u32) } else { q }
}

/// The position of `q` among the used qubits, if there.
pub fn dense_rank(vertices: &Vec<LogicalQubitId>, q: LogicalQubitId) -> (r: Option<u32>)
    requires
        vertices@.len() <= u32::MAX,
        qubits_sorted(vertices@),
    ensures
        r is None <==> !vertices@.contains(q),
        r matches Some(i) ==> LogicalQubitId(i) == dense_qubit(vertices@, q),
{
    let mut i: usize = 0;
    while i < vertices.len()
        invariant
            i <= vertices@.len() <= u32::MAX,
            qubits_sorted(vertices@),
            forall|j: int| 0 <= j < i ==> vertices@[j] != q,
        decreases vertices.len() - i,
    {
        if vertices[i].0 == q.0 {
            proof {
                assert(vertices@[i as int] == q);
                let k = vertices@.index_of(q);
                assert(0 <= k < vertices@.len() && vertices@[k] == q);
                if k != i {
                    if k < i {
                        assert(vertices@[k].0 < vertices@[i as int].0);
                    } else {
                        assert(vertices@[i as int].0 < vertices@[k].0);
                    }
                }
            }
            return Some(i as u32);
        }
        i += 1;
    }
    None
}

/// Insert `x` into a strictly sorted qubit list unless present.
fn insert_qubit(v: &mut Vec<LogicalQubitId>, x: LogicalQubitId)
    requires
        qubits_sorted(old(v)@),
    ensures
        qubits_sorted(final(v)@),
        forall|y: LogicalQubitId| #[trigger] final(v)@.contains(y) <==> (old(v)@.contains(y) || y == x),
{
    let mut i: usize = 0;
    while i < v.len() && v[i].0 < x.0
        invariant
            i <= v@.len(),
            qubits_sorted(v@),
            v@ == old(v)@,
            forall|j: int| 0 <= j < i ==> v@[j].0 < x.0,
        decreases v.len() - i,
    {
        i += 1;
    }
    if i < v.len() && v[i].0 == x.0 {
        proof {
            assert(v@[i as int] == x);
        }
        return;
    }
    v.insert(i, x);
    proof {
        assert forall|y: LogicalQubitId| #[trigger] v@.contains(y) <==> (old(v)@.contains(y) || y == x) by {
            if old(v)@.contains(y) {
                let j = choose|j: int| 0 <= j < old(v)@.len() && old(v)@[j] == y;
                if j < i {
                    assert(v@[j] == y);
                } else {
                    assert(v@[j + 1] == y);
                }
            }
            if v@.contains(y) {
                let j = choose|j: int| 0 <= j < v@.len() && v@[j] == y;
                if j < i {
                    assert(old(v)@[j] == y);
                } else if j > i {
                    assert(old(v)@[j - 1] == y);
                }
            }
            if y == x {
                assert(v@[i as int] == x);
            }
        }
    }
}

/// `new` is the sorted, duplicate-free list of the dense ids of `old_q`.
pub open spec fn densified_qubits(vertices: Seq<LogicalQubitId>, old_q: Seq<LogicalQubitId>, new_q: Seq<LogicalQubitId>) -> bool {
    &&& qubits_sorted(new_q)
    &&& forall|y: LogicalQubitId| #[trigger] new_q.contains(y) <==> exists|p: int| 0 <= p < old_q.len()
            && dense_qubit(vertices, #[trigger] old_q[p]) == y
}

/// Renumber the qubits of every interaction densely: a used qubit becomes
/// its position among the sorted used qubits `vertices`, and each qubit list
/// is sorted with duplicates removed. Returns the dense vertex list `0..n`.
pub fn densify_interactions(vertices: &Vec<LogicalQubitId>, interactions: &mut Vec<Interaction>) -> (dense: Vec<LogicalQubitId>)
    requires
        vertices@.len() <= u32::MAX,
        qubits_sorted(vertices@),
    ensures
        dense@.len() == vertices@.len(),
        forall|i: int| 0 <= i < dense@.len() ==> (#[trigger] dense@[i]).0 == i,
        final(interactions)@.len() == old(interactions)@.len(),
        forall|i: int| 0 <= i < final(interactions)@.len() ==> {
            &&& (#[trigger] final(interactions)@[i]).id == old(interactions)@[i].id
            &&& final(interactions)@[i].dag_layer == old(interactions)@[i].dag_layer
            &&& final(interactions)@[i].on_critical_path == old(interactions)@[i].on_critical_path
            &&& densified_qubits(vertices@, old(interactions)@[i].qubits@, final(interactions)@[i].qubits@)
        },
{
    let mut i: usize = 0;
    while i < interactions.len()
        invariant
            vertices@.len() <= u32::MAX,
            qubits_sorted(vertices@),
            i <= interactions@.len(),
            interactions@.len() == old(interactions)@.len(),
            forall|j: int| i <= j < interactions@.len() ==> #[trigger] interactions@[j] == old(interactions)@[j],
            forall|j: int| 0 <= j < i ==> {
                &&& (#[trigger] interactions@[j]).id == old(interactions)@[j].id
                &&& interactions@[j].dag_layer == old(interactions)@[j].dag_layer
                &&& interactions@[j].on_critical_path == old(interactions)@[j].on_critical_path
                &&& densified_qubits(vertices@, old(interactions)@[j].qubits@, interactions@[j].qubits@)
            },
        decreases interactions.len() - i,
    {
        let mut new_q: Vec<LogicalQubitId> = Vec::new();
        let mut p: usize = 0;
        let n_q = interactions[i].qubits.len();
        let ghost old_q = interactions@[i as int].qubits@;
        while p < n_q
            invariant
                vertices@.len() <= u32::MAX,
                qubits_sorted(vertices@),
                i < interactions@.len(),
                old_q == interactions@[i as int].qubits@,
                n_q == old_q.len(),
                p <= n_q,
                qubits_sorted(new_q@),
                forall|y: LogicalQubitId| #[trigger] new_q@.contains(y) <==> exists|t: int| 0 <= t < p
                    && dense_qubit(vertices@, #[trigger] old_q[t]) == y,
            decreases n_q - p,
        {
            let q = interactions[i].qubits[p];
            let m = match dense_rank(vertices, q) {
                Some(r) => LogicalQubitId(r),
                None => q,
            };
            insert_qubit(&mut new_q, m);
            proof {
                assert(old_q[p as int] == q);
                assert forall|y: LogicalQubitId| #[trigger] new_q@.contains(y) <==> exists|t: int| 0 <= t < p + 1
                    && dense_qubit(vertices@, #[trigger] old_q[t]) == y by {
                    if exists|t: int| 0 <= t < p + 1 && dense_qubit(vertices@, #[trigger] old_q[t]) == y {
                        let t = choose|t: int| 0 <= t < p + 1 && dense_qubit(vertices@, #[trigger] old_q[t]) == y;
                        if t < p {
                            assert(exists|t2: int| 0 <= t2 < p && dense_qubit(vertices@, #[trigger] old_q[t2]) == y);
                        }
                    }
                }
            }
            p += 1;
        }
        let ghost prev = interactions@;
        {
            let it = &mut interactions[i];
            it.qubits = new_q;
        }
        proof {
            assert(interactions@[i as int].qubits@ == new_q@);
            assert forall|j: int| 0 <= j < i + 1 implies {
                &&& (#[trigger] interactions@[j]).id == old(interactions)@[j].id
                &&& interactions@[j].dag_layer == old(interactions)@[j].dag_layer
                &&& interactions@[j].on_critical_path == old(interactions)@[j].on_critical_path
                &&& densified_qubits(vertices@, old(interactions)@[j].qubits@, interactions@[j].qubits@)
            } by {
                if j < i {
                    assert(interactions@[j] == prev[j]);
                }
            }
        }
        i += 1;
    }
    let mut dense: Vec<LogicalQubitId> = Vec::new();
    let mut k: usize = 0;
    while k < vertices.len()
        invariant
            k <= vertices@.len() <= u32::MAX,
            dense@.len() == k,
            forall|j: int| 0 <= j < k ==> (#[trigger] dense@[j]).0 == j,
        decreases vertices.len() - k,
    {
        dense.push(LogicalQubitId(k as u32));
        k += 1;
    }
    dense
}

} // verus!
