//! Entangling-layer scheduling: commutation groups of two-qubit interactions
//! are edge-coloured with the Misra–Gries construction (at most Δ+1 colours),
//! dependency-DAG segments are bucketed by their ASAP layer, and every bucket
//! is split into layers of at most the parallel entangling capacity.
//!
//! Atom identity is the qubit number: qubit `q` runs on `AtomId(q)`.

use vstd::prelude::*;
use vstd::multiset::Multiset;

use crate::graph::{Interaction, InteractionSegment, SegmentKind};
use crate::ids::{AtomId, InteractionId, LogicalQubitId};
use crate::schedule::{NeutralAtomAction, ScheduleLayer};

verus! {

broadcast use vstd::std_specs::btree::group_btree_axioms, vstd::laws_cmp::group_laws_cmp,
    vstd::seq_lib::group_to_multiset_ensures, vstd::multiset::group_multiset_axioms;

/// Number of layers that host `n` parallel pairs at `cap` pairs per layer:
/// the ceiling of `n / cap` (zero for no pairs).
pub fn capacity_layer_count(n: u32, cap: u32) -> (r: u32)
    requires
        cap > 0,
    ensures
        r == n / cap + (if n % cap == 0 { 0int } else { 1int }),
{
    if n == 0 {
        proof {
            assert(0u32 / cap == 0 && 0u32 % cap == 0) by (nonlinear_arith)
                requires
                    cap > 0,
            ;
        }
        return 0;
    }
    let q = n / cap;
    if n % cap == 0 {
        q
    } else {
        proof {
            assert(q * cap <= n) by (nonlinear_arith)
                requires
                    q == n / cap,
                    cap > 0,
            ;
            assert(q < n) by (nonlinear_arith)
                requires
                    q * cap <= n,
                    cap > 0,
                    n % cap != 0,
                    q == n / cap,
            ;
        }
        q + 1
    }
}

/// The atoms of a list of qubits, qubit `q` on atom `q`.
pub open spec fn qubit_atoms(qubits: Seq<LogicalQubitId>) -> Seq<AtomId> {
    qubits.map_values(|q: LogicalQubitId| AtomId(q.0))
}

/// The pair entangle of a two-qubit interaction, one microsecond long.
pub open spec fn pair_entangle(i: Interaction) -> NeutralAtomAction {
    NeutralAtomAction::Entangle2 { atoms: [AtomId(i.qubits@[0].0), AtomId(i.qubits@[1].0)], duration_us: 1 }
}

/// The entangle action of an interaction (atom `q` for qubit `q`).
pub fn entangle_action(interaction: &Interaction) -> (a: NeutralAtomAction)
    ensures
        interaction.qubits@.len() == 2 ==> a == pair_entangle(*interaction),
        interaction.qubits@.len() != 2 ==> (a matches NeutralAtomAction::EntangleN { atoms, duration_us }
            && atoms@ == qubit_atoms(interaction.qubits@) && duration_us == 1),
{
    let q = &interaction.qubits;
    if q.len() == 2 {
        return NeutralAtomAction::Entangle2 { atoms: [AtomId(q[0].0), AtomId(q[1].0)], duration_us: 1 };
    }
    let mut atoms: Vec<AtomId> = Vec::new();
    let mut k: usize = 0;
    while k < q.len()
        invariant
            k <= q@.len(),
            atoms@ == qubit_atoms(q@.take(k as int)),
        decreases q.len() - k,
    {
        proof {
            assert(q@.take(k + 1) =~= q@.take(k as int).push(q@[k as int]));
        }
        atoms.push(AtomId(q[k].0));
        k += 1;
    }
    proof {
        assert(q@.take(q@.len() as int) =~= q@);
    }
    NeutralAtomAction::EntangleN { atoms, duration_us: 1 }
}

/// How many of the actions are entangles.
pub open spec fn entangle_count(actions: Seq<NeutralAtomAction>) -> nat
    decreases actions.len(),
{
    if actions.len() == 0 {
        0
    } else {
        entangle_count(actions.drop_last()) + (if crate::schedule::is_entangle(actions.last()) { 1nat } else { 0nat })
    }
}

/// There are no more entangles than actions.
proof fn lemma_entangle_count_bound(actions: Seq<NeutralAtomAction>)
    ensures
        entangle_count(actions) <= actions.len(),
    decreases actions.len(),
{
    if actions.len() > 0 {
        lemma_entangle_count_bound(actions.drop_last());
    }
}

/// The number of entangle actions of a layer.
pub fn count_entangling_actions(actions: &Vec<NeutralAtomAction>) -> (r: u32)
    requires
        actions@.len() <= u32::MAX,
    ensures
        r == entangle_count(actions@),
{
    let mut count: u32 = 0;
    let mut k: usize = 0;
    while k < actions.len()
        invariant
            k <= actions@.len() <= u32::MAX,
            count == entangle_count(actions@.take(k as int)),
        decreases actions.len() - k,
    {
        proof {
            assert(actions@.take(k + 1).drop_last() =~= actions@.take(k as int));
            lemma_entangle_count_bound(actions@.take(k as int));
        }
        match &actions[k] {
            NeutralAtomAction::Entangle2 { .. } => {
                count += 1;
            },
            NeutralAtomAction::EntangleN { .. } => {
                count += 1;
            },
            _ => {},
        }
        k += 1;
    }
    proof {
        assert(actions@.take(actions@.len() as int) =~= actions@);
    }
    count
}

/// The colour table: for each of `n` vertices, `k` slots, slot `c` naming
/// the neighbour joined by the edge of colour `c`, if any.
spec fn table_ok(ct: Seq<Vec<Option<usize>>>, n: int, k: int) -> bool {
    &&& ct.len() == n
    &&& forall|v: int| 0 <= v < n ==> (#[trigger] ct[v])@.len() == k
    &&& forall|v: int, c: int| 0 <= v < n && 0 <= c < k ==> (#[trigger] ct[v]@[c] matches Some(w) ==> w < n)
}

/// The colour of each of `m` edges, if coloured, below `k`.
spec fn colours_ok(ec: Seq<Option<u32>>, m: int, k: int) -> bool {
    &&& ec.len() == m
    &&& forall|e: int| 0 <= e < m ==> (#[trigger] ec[e] matches Some(c) ==> c < k)
}

/// Adjacency lists of `n` vertices: `(neighbour, edge index)` pairs, in
/// strictly increasing neighbour order.
spec fn adj_ok(adj: Seq<Vec<(usize, usize)>>, n: int, m: int) -> bool {
    &&& adj.len() == n
    &&& forall|v: int, i: int| 0 <= v < n && 0 <= i < adj[v]@.len() ==> (#[trigger] adj[v]@[i]).0 < n && adj[v]@[i].1 < m
    &&& forall|v: int, i: int, j: int| 0 <= v < n && 0 <= i < j < adj[v]@.len() ==> (#[trigger] adj[v]@[i]).0 < (#[trigger] adj[v]@[j]).0
}

/// The colour table as sequences.
pub open spec fn tview(ct: Seq<Vec<Option<usize>>>) -> Seq<Seq<Option<usize>>> {
    ct.map_values(|r: Vec<Option<usize>>| r@)
}

/// The table with slot `p` of `x` emptied if it names `y`.
pub open spec fn slot_cleared(t: Seq<Seq<Option<usize>>>, x: usize, p: int, y: usize) -> Seq<Seq<Option<usize>>> {
    if t[x as int][p] == Some(y) { t.update(x as int, t[x as int].update(p, None)) } else { t }
}

/// The table after edge `u`–`v`, of colour `prev`, is given colour `color`:
/// the slots of `prev` that name the other end are emptied, then those of
/// `color` filled.
pub open spec fn edge_slots(t: Seq<Seq<Option<usize>>>, prev: Option<u32>, u: usize, v: usize, color: Option<u32>)
    -> Seq<Seq<Option<usize>>> {
    let t1 = match prev {
        Some(p) => slot_cleared(slot_cleared(t, u, p as int, v), v, p as int, u),
        None => t,
    };
    match color {
        Some(c) => {
            let b = t1.update(u as int, t1[u as int].update(c as int, Some(v)));
            b.update(v as int, b[v as int].update(c as int, Some(u)))
        },
        None => t1,
    }
}

/// Edge colours and table after edge `e` between `a` and `b` gets `color`.
pub open spec fn apply_edge(st: (Seq<Option<u32>>, Seq<Seq<Option<usize>>>), a: usize, b: usize, e: usize,
    color: Option<u32>) -> (Seq<Option<u32>>, Seq<Seq<Option<usize>>>) {
    (st.0.update(e as int, color), edge_slots(st.1, st.0[e as int], a, b, color))
}

/// Set one slot of the colour table.
fn set_slot(ct: &mut Vec<Vec<Option<usize>>>, v: usize, c: usize, val: Option<usize>, Ghost(n): Ghost<int>, Ghost(k): Ghost<int>)
    requires
        table_ok(old(ct)@, n, k),
        v < n,
        c < k,
        val matches Some(w) ==> w < n,
    ensures
        table_ok(final(ct)@, n, k),
        final(ct)@[v as int]@ == old(ct)@[v as int]@.update(c as int, val),
        forall|x: int| 0 <= x < n && x != v ==> (#[trigger] final(ct)@[x])@ == old(ct)@[x]@,
        tview(final(ct)@) == tview(old(ct)@).update(v as int, tview(old(ct)@)[v as int].update(c as int, val)),
{
    let row = &mut ct[v];
    row.set(c, val);
    proof {
        assert(tview(ct@) =~= tview(old(ct)@).update(v as int, tview(old(ct)@)[v as int].update(c as int, val))) by {
            assert forall|x: int| 0 <= x < n implies #[trigger] tview(ct@)[x] == tview(old(ct)@).update(v as int,
                tview(old(ct)@)[v as int].update(c as int, val))[x] by {
                if x != v {
                    assert(ct@[x]@ == old(ct)@[x]@);
                }
            }
        }
        assert forall|x: int, d: int| 0 <= x < n && 0 <= d < k implies (#[trigger] ct@[x]@[d] matches Some(w) ==> w < n) by {
            if x == v && d == c {
            } else {
                assert(ct@[x]@[d] == old(ct)@[x]@[d]);
            }
        }
    }
}

/// Colour edge `e` between `u` and `v` with `color` (or uncolour it),
/// clearing the table slots of its previous colour where they still name it.
fn set_edge_color(u: usize, v: usize, e: usize, color: Option<u32>, ec: &mut Vec<Option<u32>>,
    ct: &mut Vec<Vec<Option<usize>>>, Ghost(n): Ghost<int>, Ghost(k): Ghost<int>)
    requires
        table_ok(old(ct)@, n, k),
        colours_ok(old(ec)@, old(ec)@.len() as int, k),
        u < n,
        v < n,
        e < old(ec)@.len(),
        color matches Some(c) ==> c < k,
    ensures
        table_ok(final(ct)@, n, k),
        colours_ok(final(ec)@, old(ec)@.len() as int, k),
        final(ec)@ == old(ec)@.update(e as int, color),
        (final(ec)@, tview(final(ct)@)) == apply_edge((old(ec)@, tview(old(ct)@)), u, v, e, color),
{
    if let Some(prev) = ec[e] {
        let p = prev as usize;
        if ct[u][p] == Some(v) {
            set_slot(ct, u, p, None, Ghost(n), Ghost(k));
        }
        if ct[v][p] == Some(u) {
            set_slot(ct, v, p, None, Ghost(n), Ghost(k));
        }
    }
    ec.set(e, color);
    if let Some(c) = color {
        let cc = c as usize;
        set_slot(ct, u, cc, Some(v), Ghost(n), Ghost(k));
        set_slot(ct, v, cc, Some(u), Ghost(n), Ghost(k));
    }
}

/// The first colour at or after `i` with an empty slot in a row.
pub open spec fn first_free_from(row: Seq<Option<usize>>, i: int) -> Option<u32>
    decreases row.len() - i,
{
    if i < 0 || i >= row.len() {
        None
    } else if row[i] is None {
        Some(i as u32)
    } else {
        first_free_from(row, i + 1)
    }
}

/// The first colour with an empty slot in a vertex's row.
fn free_color(row: &Vec<Option<usize>>) -> (r: Option<u32>)
    requires
        row@.len() <= u32::MAX,
    ensures
        r == first_free_from(row@, 0),
        r matches Some(c) ==> c < row@.len() && row@[c as int] is None
            && forall|j: int| 0 <= j < c ==> (#[trigger] row@[j]) is Some,
        r is None <==> forall|j: int| 0 <= j < row@.len() ==> (#[trigger] row@[j]) is Some,
{
    let mut c: usize = 0;
    while c < row.len()
        invariant
            c <= row@.len() <= u32::MAX,
            forall|j: int| 0 <= j < c ==> (#[trigger] row@[j]) is Some,
            first_free_from(row@, 0) == first_free_from(row@, c as int),
        decreases row.len() - c,
    {
        if row[c].is_none() {
            return Some(c as u32);
        }
        c += 1;
    }
    None
}

/// The edge index of the first entry for neighbour `w` in an adjacency list.
pub open spec fn edge_index(list: Seq<(usize, usize)>, w: usize) -> Option<usize>
    decreases list.len(),
{
    if list.len() == 0 {
        None
    } else if list[0].0 == w {
        Some(list[0].1)
    } else {
        edge_index(list.drop_first(), w)
    }
}

/// The index of the edge to neighbour `w` in an adjacency list.
fn edge_to(list: &Vec<(usize, usize)>, w: usize) -> (r: Option<usize>)
    ensures
        r == edge_index(list@, w),
        r matches Some(e) ==> exists|i: int| 0 <= i < list@.len() && #[trigger] list@[i] == (w, e),
        r is None <==> forall|i: int| 0 <= i < list@.len() ==> (#[trigger] list@[i]).0 != w,
{
    let mut i: usize = 0;
    proof {
        assert(list@.skip(0) =~= list@);
    }
    while i < list.len()
        invariant
            i <= list@.len(),
            edge_index(list@, w) == edge_index(list@.skip(i as int), w),
            forall|j: int| 0 <= j < i ==> (#[trigger] list@[j]).0 != w,
        decreases list.len() - i,
    {
        proof {
            let rest = list@.skip(i as int);
            assert(rest[0] == list@[i as int]);
            assert(rest.drop_first() =~= list@.skip(i + 1));
        }
        if list[i].0 == w {
            return Some(list[i].1);
        }
        i += 1;
    }
    proof {
        assert(list@.skip(i as int).len() == 0);
    }
    None
}

/// The maximal path from `cur` whose edges take colours `expect`, `other`,
/// `expect`, … in the colour table, as `(from, to, edge)` steps, each edge
/// the first adjacency entry for its neighbour; `None` if an edge is missing
/// from the adjacency lists or the path needs more than `fuel` steps.
pub open spec fn cd_walk(t: Seq<Seq<Option<usize>>>, adj: Seq<Vec<(usize, usize)>>, cur: usize, expect: u32,
    other: u32, fuel: nat) -> Option<Seq<(usize, usize, usize)>>
    decreases fuel,
{
    match t[cur as int][expect as int] {
        None => Some(seq![]),
        Some(next) => match edge_index(adj[cur as int]@, next) {
            None => None,
            Some(e) => if fuel == 0 {
                None
            } else {
                match cd_walk(t, adj, next, other, expect, (fuel - 1) as nat) {
                    None => None,
                    Some(p) => Some(seq![(cur, next, e)] + p),
                }
            },
        },
    }
}

/// Edge colours and table with the first `i` path edges uncoloured.
pub open spec fn path_cleared(st: (Seq<Option<u32>>, Seq<Seq<Option<usize>>>), path: Seq<(usize, usize, usize)>, i: int)
    -> (Seq<Option<u32>>, Seq<Seq<Option<usize>>>)
    decreases i,
{
    if i <= 0 {
        st
    } else {
        apply_edge(path_cleared(st, path, i - 1), path[i - 1].0, path[i - 1].1, path[i - 1].2, None)
    }
}

/// Edge colours and table with the first `i` path edges coloured `c`, `d`, `c`, ….
pub open spec fn path_painted(st: (Seq<Option<u32>>, Seq<Seq<Option<usize>>>), path: Seq<(usize, usize, usize)>,
    c: u32, d: u32, i: int) -> (Seq<Option<u32>>, Seq<Seq<Option<usize>>>)
    decreases i,
{
    if i <= 0 {
        st
    } else {
        apply_edge(path_painted(st, path, c, d, i - 1), path[i - 1].0, path[i - 1].1, path[i - 1].2,
            Some(if (i - 1) % 2 == 0 { c } else { d }))
    }
}

/// Colours and table after inverting the cd-path `path`.
pub open spec fn path_inverted(st: (Seq<Option<u32>>, Seq<Seq<Option<usize>>>), path: Seq<(usize, usize, usize)>,
    c: u32, d: u32) -> (Seq<Option<u32>>, Seq<Seq<Option<usize>>>) {
    path_painted(path_cleared(st, path, path.len() as int), path, c, d, path.len() as int)
}

/// Invert the maximal path from `start` whose edges alternate colours `d`,
/// `c`, `d`, … (`c` being free at `start`): its edges become `c`, `d`, `c`, ….
/// Returns false, changing nothing, if the walk outruns the edge count or
/// meets an edge missing from the adjacency lists, neither of which a
/// proper colouring allows.
fn invert_cd_path(start: usize, c: u32, d: u32, adj: &Vec<Vec<(usize, usize)>>, ec: &mut Vec<Option<u32>>,
    ct: &mut Vec<Vec<Option<usize>>>, Ghost(n): Ghost<int>, Ghost(k): Ghost<int>) -> (ok: bool)
    requires
        table_ok(old(ct)@, n, k),
        adj_ok(adj@, n, old(ec)@.len() as int),
        colours_ok(old(ec)@, old(ec)@.len() as int, k),
        start < n,
        c < k,
        d < k,
    ensures
        table_ok(final(ct)@, n, k),
        colours_ok(final(ec)@, old(ec)@.len() as int, k),
        final(ec)@.len() == old(ec)@.len(),
        ok == cd_walk(tview(old(ct)@), adj@, start, d, c, old(ec)@.len() as nat) is Some,
        !ok ==> final(ec)@ == old(ec)@ && final(ct)@ == old(ct)@,
        cd_walk(tview(old(ct)@), adj@, start, d, c, old(ec)@.len() as nat) matches Some(path)
            ==> (final(ec)@, tview(final(ct)@)) == path_inverted((old(ec)@, tview(old(ct)@)), path, c, d),
{
    let m = ec.len();
    let ghost ct0 = tview(ct@);
    let ghost walk = cd_walk(ct0, adj@, start, d, c, m as nat);
    let mut path: Vec<(usize, usize, usize)> = Vec::new();
    let mut current = start;
    let mut expect = d;
    let mut other = c;
    let mut steps: usize = 0;
    proof {
        assert(walk == match cd_walk(ct0, adj@, start, d, c, m as nat) {
            None => None::<Seq<(usize, usize, usize)>>,
            Some(p) => Some(path@ + p),
        }) by {
            if let Some(p) = walk {
                assert(path@ + p =~= p);
            }
        }
    }
    loop
        invariant
            tview(ct@) == ct0,
            ct@ == old(ct)@,
            ec@ == old(ec)@,
            table_ok(ct@, n, k),
            adj_ok(adj@, n, m as int),
            colours_ok(ec@, m as int, k),
            m == ec@.len(),
            current < n,
            expect < k,
            other < k,
            steps == path@.len(),
            steps <= m,
            c < k,
            d < k,
            forall|i: int| 0 <= i < path@.len() ==> (#[trigger] path@[i]).0 < n && path@[i].1 < n && path@[i].2 < m,
            walk == cd_walk(ct0, adj@, start, d, c, m as nat),
            walk == match cd_walk(ct0, adj@, current, expect, other, (m - steps) as nat) {
                None => None::<Seq<(usize, usize, usize)>>,
                Some(p) => Some(path@ + p),
            },
        ensures
            ct0[current as int][expect as int] is None,
        decreases m - steps,
    {
        let next = match ct[current][expect as usize] {
            Some(w) => w,
            None => {
                break;
            },
        };
        let eidx = match edge_to(&adj[current], next) {
            Some(e) => e,
            None => {
                return false;
            },
        };
        if steps == m {
            return false;
        }
        proof {
            let rest = cd_walk(ct0, adj@, next, other, expect, (m - steps - 1) as nat);
            if let Some(p) = rest {
                assert(path@ + (seq![(current, next, eidx)] + p) =~= path@.push((current, next, eidx)) + p);
            }
        }
        path.push((current, next, eidx));
        current = next;
        let t = expect;
        expect = other;
        other = t;
        steps += 1;
    }
    proof {
        assert(walk == Some(path@)) by {
            assert(path@ + Seq::<(usize, usize, usize)>::empty() =~= path@);
        }
    }
    let mut i: usize = 0;
    while i < path.len()
        invariant
            table_ok(ct@, n, k),
            colours_ok(ec@, m as int, k),
            m == ec@.len(),
            i <= path@.len(),
            forall|j: int| 0 <= j < path@.len() ==> (#[trigger] path@[j]).0 < n && path@[j].1 < n && path@[j].2 < m,
            (ec@, tview(ct@)) == path_cleared((old(ec)@, tview(old(ct)@)), path@, i as int),
        decreases path.len() - i,
    {
        let (a, b, e) = path[i];
        set_edge_color(a, b, e, None, ec, ct, Ghost(n), Ghost(k));
        i += 1;
    }
    let ghost base = (ec@, tview(ct@));
    let mut i: usize = 0;
    while i < path.len()
        invariant
            table_ok(ct@, n, k),
            colours_ok(ec@, m as int, k),
            m == ec@.len(),
            c < k,
            d < k,
            i <= path@.len(),
            forall|j: int| 0 <= j < path@.len() ==> (#[trigger] path@[j]).0 < n && path@[j].1 < n && path@[j].2 < m,
            base == path_cleared((old(ec)@, tview(old(ct)@)), path@, path@.len() as int),
            (ec@, tview(ct@)) == path_painted(base, path@, c, d, i as int),
        decreases path.len() - i,
    {
        let (a, b, e) = path[i];
        let new = if i % 2 == 0 { c } else { d };
        set_edge_color(a, b, e, Some(new), ec, ct, Ghost(n), Ghost(k));
        i += 1;
    }
    true
}

/// The edges of the first `len` fan positions at `u`: `edge_uv` for the
/// first, then the first adjacency entry of `u` for each later fan vertex;
/// `None` if such an entry is missing.
pub open spec fn fan_edges(adj: Seq<Vec<(usize, usize)>>, u: usize, edge_uv: usize, fan: Seq<usize>, len: int)
    -> Option<Seq<usize>>
    decreases len,
{
    if len <= 0 {
        Some(seq![])
    } else {
        match fan_edges(adj, u, edge_uv, fan, len - 1) {
            None => None,
            Some(es) => if len - 1 == 0 {
                Some(es.push(edge_uv))
            } else {
                match edge_index(adj[u as int]@, fan[len - 1]) {
                    None => None,
                    Some(e) => Some(es.push(e)),
                }
            },
        }
    }
}

/// Edge colours and table with fan edges `1 .. i` (edge `j` joining `u` and
/// `fan[j]`) uncoloured.
pub open spec fn fan_cleared(st: (Seq<Option<u32>>, Seq<Seq<Option<usize>>>), u: usize, fan: Seq<usize>,
    es: Seq<usize>, i: int) -> (Seq<Option<u32>>, Seq<Seq<Option<usize>>>)
    decreases i,
{
    if i <= 1 {
        st
    } else {
        apply_edge(fan_cleared(st, u, fan, es, i - 1), u, fan[i - 1], es[i - 1], None)
    }
}

/// Edge colours and table with fan edges `0 .. i` each given the colour, in
/// `before`, of the next fan edge.
pub open spec fn fan_shifted(st: (Seq<Option<u32>>, Seq<Seq<Option<usize>>>), before: Seq<Option<u32>>, u: usize,
    fan: Seq<usize>, es: Seq<usize>, i: int) -> (Seq<Option<u32>>, Seq<Seq<Option<usize>>>)
    decreases i,
{
    if i <= 0 {
        st
    } else {
        apply_edge(fan_shifted(st, before, u, fan, es, i - 1), u, fan[i - 1], es[i - 1], before[es[i] as int])
    }
}

/// Colours and table after rotating the fan prefix up to `r` and colouring
/// its last edge `d`.
pub open spec fn fan_rotated(st: (Seq<Option<u32>>, Seq<Seq<Option<usize>>>), u: usize, fan: Seq<usize>,
    es: Seq<usize>, r: int, d: u32) -> (Seq<Option<u32>>, Seq<Seq<Option<usize>>>) {
    apply_edge(fan_shifted(fan_cleared(st, u, fan, es, r + 1), st.0, u, fan, es, r), u, fan[r], es[r], Some(d))
}

proof fn lemma_fan_edges_none_stays(adj: Seq<Vec<(usize, usize)>>, u: usize, edge_uv: usize, fan: Seq<usize>, a: int, b: int)
    requires
        0 <= a <= b,
        fan_edges(adj, u, edge_uv, fan, a) is None,
    ensures
        fan_edges(adj, u, edge_uv, fan, b) is None,
    decreases b - a,
{
    if a < b {
        lemma_fan_edges_none_stays(adj, u, edge_uv, fan, a, b - 1);
    }
}

proof fn lemma_fan_edges_shape(adj: Seq<Vec<(usize, usize)>>, u: usize, edge_uv: usize, fan: Seq<usize>, len: int)
    requires
        0 <= len,
        fan_edges(adj, u, edge_uv, fan, len) is Some,
    ensures
        fan_edges(adj, u, edge_uv, fan, len)->0.len() == len,
        len > 0 ==> fan_edges(adj, u, edge_uv, fan, len)->0[0] == edge_uv,
    decreases len,
{
    if len > 0 {
        lemma_fan_edges_shape(adj, u, edge_uv, fan, len - 1);
    }
}

proof fn lemma_fan_edges_bound(adj: Seq<Vec<(usize, usize)>>, u: usize, edge_uv: usize, fan: Seq<usize>, len: int,
    n: int, m: int)
    requires
        0 <= len,
        adj_ok(adj, n, m),
        0 <= u < n,
        edge_uv < m,
        fan_edges(adj, u, edge_uv, fan, len) is Some,
    ensures
        forall|j: int| 0 <= j < fan_edges(adj, u, edge_uv, fan, len)->0.len()
            ==> (#[trigger] fan_edges(adj, u, edge_uv, fan, len)->0[j] as int) < m,
    decreases len,
{
    if len > 0 {
        lemma_fan_edges_bound(adj, u, edge_uv, fan, len - 1, n, m);
        if len - 1 > 0 {
            lemma_edge_index_bound(adj[u as int]@, fan[len - 1], n, m);
        }
    }
}

proof fn lemma_edge_index_bound(list: Seq<(usize, usize)>, w: usize, n: int, m: int)
    requires
        forall|i: int| 0 <= i < list.len() ==> (#[trigger] list[i]).1 < m,
    ensures
        edge_index(list, w) matches Some(e) ==> e < m,
    decreases list.len(),
{
    if list.len() > 0 && list[0].0 != w {
        assert forall|i: int| 0 <= i < list.drop_first().len() implies (#[trigger] list.drop_first()[i]).1 < m by {
            assert(list.drop_first()[i] == list[i + 1]);
        }
        lemma_edge_index_bound(list.drop_first(), w, n, m);
    }
}

proof fn lemma_fan_cleared_len(st: (Seq<Option<u32>>, Seq<Seq<Option<usize>>>), u: usize, fan: Seq<usize>,
    es: Seq<usize>, i: int)
    requires
        i <= es.len(),
        forall|j: int| 0 <= j < es.len() ==> (#[trigger] es[j] as int) < st.0.len(),
    ensures
        fan_cleared(st, u, fan, es, i).0.len() == st.0.len(),
    decreases i,
{
    if i > 1 {
        lemma_fan_cleared_len(st, u, fan, es, i - 1);
    }
}

/// Every fan edge before position `i` has a colour after the shift, when
/// the colours shifted in are all present.
proof fn lemma_fan_shifted_coloured(st: (Seq<Option<u32>>, Seq<Seq<Option<usize>>>), before: Seq<Option<u32>>,
    u: usize, fan: Seq<usize>, es: Seq<usize>, i: int)
    requires
        0 <= i < es.len(),
        forall|j: int| 1 <= j <= i ==> before[#[trigger] es[j] as int] is Some,
        forall|j: int| 0 <= j < es.len() ==> (#[trigger] es[j] as int) < st.0.len(),
    ensures
        forall|j: int| 0 <= j < i ==> fan_shifted(st, before, u, fan, es, i).0[#[trigger] es[j] as int] is Some,
        fan_shifted(st, before, u, fan, es, i).0.len() == st.0.len(),
    decreases i,
{
    if i > 0 {
        lemma_fan_shifted_coloured(st, before, u, fan, es, i - 1);
        assert forall|j: int| 0 <= j < i implies fan_shifted(st, before, u, fan, es, i).0[#[trigger] es[j] as int] is Some by {
            assert(before[es[i] as int] is Some);
        }
    }
}

/// Shift the colours along the fan edges `u–fan[0] … u–fan[rotate_to]`
/// (edge `i` takes the colour of edge `i + 1`) and colour the last with `d`.
/// `fan[0]` is the uncoloured endpoint of `edge_uv`. Returns false if a fan
/// edge is missing (changing nothing) or uncoloured, which a maximal fan
/// does not allow.
fn rotate_fan_and_color(u: usize, edge_uv: usize, fan: &Vec<usize>, rotate_to: usize, d: u32,
    adj: &Vec<Vec<(usize, usize)>>, ec: &mut Vec<Option<u32>>, ct: &mut Vec<Vec<Option<usize>>>,
    Ghost(n): Ghost<int>, Ghost(k): Ghost<int>) -> (ok: bool)
    requires
        table_ok(old(ct)@, n, k),
        adj_ok(adj@, n, old(ec)@.len() as int),
        colours_ok(old(ec)@, old(ec)@.len() as int, k),
        u < n,
        edge_uv < old(ec)@.len(),
        rotate_to < fan@.len(),
        forall|i: int| 0 <= i < fan@.len() ==> #[trigger] fan@[i] < n,
        d < k,
    ensures
        table_ok(final(ct)@, n, k),
        colours_ok(final(ec)@, old(ec)@.len() as int, k),
        final(ec)@.len() == old(ec)@.len(),
        ok == (fan_edges(adj@, u, edge_uv, fan@, rotate_to + 1) matches Some(es)
            && forall|j: int| 1 <= j <= rotate_to ==> old(ec)@[#[trigger] es[j] as int] is Some),
        fan_edges(adj@, u, edge_uv, fan@, rotate_to + 1) is None ==> final(ec)@ == old(ec)@ && final(ct)@ == old(ct)@,
        ok ==> (fan_edges(adj@, u, edge_uv, fan@, rotate_to + 1) matches Some(es)
            && (final(ec)@, tview(final(ct)@))
                == fan_rotated((old(ec)@, tview(old(ct)@)), u, fan@, es, rotate_to as int, d)),
{
    let m = ec.len();
    let flen = fan.len();
    let ghost ec0 = ec@;
    // The edge of each fan position, and its colour before the shift.
    let mut edges: Vec<usize> = Vec::new();
    let mut prior: Vec<Option<u32>> = Vec::new();
    let mut i: usize = 0;
    while i <= rotate_to
        invariant
            table_ok(ct@, n, k),
            adj_ok(adj@, n, m as int),
            colours_ok(ec@, m as int, k),
            ec@ == ec0,
            ct@ == old(ct)@,
            ec0 == old(ec)@,
            m == ec@.len(),
            u < n,
            edge_uv < m,
            flen == fan@.len(),
            rotate_to < flen,
            i <= rotate_to + 1,
            edges@.len() == i,
            prior@.len() == i,
            fan_edges(adj@, u, edge_uv, fan@, i as int) == Some(edges@),
            forall|j: int| 0 <= j < i ==> #[trigger] edges@[j] < m,
            forall|j: int| 0 <= j < i ==> (#[trigger] prior@[j] matches Some(c) ==> c < k),
            i > 0 ==> prior@[0] is None,
            forall|j: int| 1 <= j < i ==> #[trigger] prior@[j] == ec0[edges@[j] as int],
        decreases rotate_to + 1 - i,
    {
        let e = if i == 0 {
            edge_uv
        } else {
            match edge_to(&adj[u], fan[i]) {
                Some(e) => e,
                None => {
                    proof {
                        lemma_fan_edges_none_stays(adj@, u, edge_uv, fan@, i + 1, rotate_to + 1);
                    }
                    return false;
                },
            }
        };
        proof {
            if i > 0 {
                let j = choose|j: int| 0 <= j < adj@[u as int]@.len() && #[trigger] adj@[u as int]@[j] == (fan@[i as int], e);
                assert(adj@[u as int]@[j].1 < m);
            }
        }
        edges.push(e);
        if i == 0 {
            prior.push(None);
        } else {
            prior.push(ec[e]);
        }
        i += 1;
    }
    let ghost es = edges@;
    let ghost st0 = (ec@, tview(ct@));
    let mut i: usize = 1;
    while i <= rotate_to
        invariant
            table_ok(ct@, n, k),
            colours_ok(ec@, m as int, k),
            m == ec@.len(),
            m == old(ec)@.len(),
            u < n,
            flen == fan@.len(),
            rotate_to < flen,
            forall|j: int| 0 <= j < fan@.len() ==> #[trigger] fan@[j] < n,
            edges@.len() == rotate_to + 1,
            edges@ == es,
            fan_edges(adj@, u, edge_uv, fan@, rotate_to + 1) == Some(es),
            ec0 == old(ec)@,
            forall|j: int| 0 <= j < edges@.len() ==> #[trigger] edges@[j] < m,
            1 <= i <= rotate_to + 1,
            (ec@, tview(ct@)) == fan_cleared(st0, u, fan@, es, i as int),
            st0 == (old(ec)@, tview(old(ct)@)),
        decreases rotate_to + 1 - i,
    {
        set_edge_color(u, fan[i], edges[i], None, ec, ct, Ghost(n), Ghost(k));
        i += 1;
    }
    let ghost base = (ec@, tview(ct@));
    let mut i: usize = 0;
    while i < rotate_to
        invariant
            table_ok(ct@, n, k),
            colours_ok(ec@, m as int, k),
            m == ec@.len(),
            m == old(ec)@.len(),
            u < n,
            rotate_to < fan@.len(),
            forall|j: int| 0 <= j < fan@.len() ==> #[trigger] fan@[j] < n,
            edges@.len() == rotate_to + 1,
            prior@.len() == rotate_to + 1,
            edges@ == es,
            fan_edges(adj@, u, edge_uv, fan@, rotate_to + 1) == Some(es),
            ec0 == old(ec)@,
            forall|j: int| 0 <= j < edges@.len() ==> #[trigger] edges@[j] < m,
            forall|j: int| 0 <= j < prior@.len() ==> (#[trigger] prior@[j] matches Some(c) ==> c < k),
            forall|j: int| 1 <= j <= rotate_to ==> #[trigger] prior@[j] == ec0[edges@[j] as int],
            forall|j: int| 1 <= j <= i ==> ec0[#[trigger] es[j] as int] is Some,
            base == fan_cleared(st0, u, fan@, es, rotate_to + 1),
            st0 == (old(ec)@, tview(old(ct)@)),
            (ec@, tview(ct@)) == fan_shifted(base, ec0, u, fan@, es, i as int),
            i <= rotate_to,
        decreases rotate_to - i,
    {
        let new_color = match prior[i + 1] {
            Some(c) => c,
            None => {
                proof {
                    assert(ec0[es[i + 1] as int] is None);
                }
                return false;
            },
        };
        set_edge_color(u, fan[i], edges[i], Some(new_color), ec, ct, Ghost(n), Ghost(k));
        i += 1;
    }
    set_edge_color(u, fan[rotate_to], edges[rotate_to], Some(d), ec, ct, Ghost(n), Ghost(k));
    true
}

/// The first neighbour `w` in an adjacency list, outside `fan`, whose edge
/// to the list's vertex has colour `col`.
pub open spec fn fan_next(list: Seq<(usize, usize)>, ec: Seq<Option<u32>>, fan: Seq<usize>, col: u32) -> Option<usize>
    decreases list.len(),
{
    if list.len() == 0 {
        None
    } else if !fan.contains(list[0].0) && ec[list[0].1 as int] == Some(col) {
        Some(list[0].0)
    } else {
        fan_next(list.drop_first(), ec, fan, col)
    }
}

/// The fan at `u` grown from `fan`, at most `fuel` times, each time by the
/// first neighbour of `u` outside the fan whose edge has the first colour
/// free at the tip; `None` if a tip has no free colour.
pub open spec fn fan_from(t: Seq<Seq<Option<usize>>>, adj: Seq<Vec<(usize, usize)>>, ec: Seq<Option<u32>>, u: usize,
    fan: Seq<usize>, fuel: nat) -> Option<Seq<usize>>
    decreases fuel,
{
    if fuel == 0 {
        Some(fan)
    } else {
        match first_free_from(t[fan.last() as int], 0) {
            None => None,
            Some(col) => match fan_next(adj[u as int]@, ec, fan, col) {
                None => Some(fan),
                Some(w) => fan_from(t, adj, ec, u, fan.push(w), (fuel - 1) as nat),
            },
        }
    }
}

/// The first fan position at or after `i` whose vertex has colour `d` free.
pub open spec fn first_fan_free(t: Seq<Seq<Option<usize>>>, fan: Seq<usize>, d: u32, i: int) -> Option<int>
    decreases fan.len() - i,
{
    if i < 0 || i >= fan.len() {
        None
    } else if t[fan[i] as int][d as int] is None {
        Some(i)
    } else {
        first_fan_free(t, fan, d, i + 1)
    }
}

/// Colours and table after one Misra–Gries step on edge `edge_uv` between
/// `u` and `v`, or `None` where a step finds nothing: the maximal fan at `u`
/// from `v`, `c` free at `u`, `d` free at the fan's tip, the cd-path at `u`
/// inverted, then the fan prefix up to the first vertex with `d` free
/// rotated and its last edge coloured `d`.
pub open spec fn edge_step(st: (Seq<Option<u32>>, Seq<Seq<Option<usize>>>), adj: Seq<Vec<(usize, usize)>>, u: usize,
    v: usize, edge_uv: usize) -> Option<(Seq<Option<u32>>, Seq<Seq<Option<usize>>>)> {
    match fan_from(st.1, adj, st.0, u, seq![v], st.1.len()) {
        None => None,
        Some(fan) => match first_free_from(st.1[u as int], 0) {
            None => None,
            Some(c) => match first_free_from(st.1[fan.last() as int], 0) {
                None => None,
                Some(d) => match cd_walk(st.1, adj, u, d, c, st.0.len()) {
                    None => None,
                    Some(path) => {
                        let st1 = path_inverted(st, path, c, d);
                        match first_fan_free(st1.1, fan, d, 0) {
                            None => None,
                            Some(r) => match fan_edges(adj, u, edge_uv, fan, r + 1) {
                                None => None,
                                Some(es) => if forall|j: int| 1 <= j <= r ==> st1.0[#[trigger] es[j] as int] is Some {
                                    Some(fan_rotated(st1, u, fan, es, r, d))
                                } else {
                                    None
                                },
                            },
                        }
                    },
                },
            },
        },
    }
}

/// Colour edge `edge_uv` between `u` and `v` by the Misra–Gries step: build
/// the maximal fan at `u` starting at `v`, take `c` free at `u` and `d` free
/// at the fan's tip, invert the cd-path at `u`, then rotate the fan prefix up
/// to the first vertex with `d` free and colour its last edge `d`. Returns
/// false if a step finds none of what the construction guarantees.
fn color_edge(u: usize, v: usize, edge_uv: usize, adj: &Vec<Vec<(usize, usize)>>, ec: &mut Vec<Option<u32>>,
    ct: &mut Vec<Vec<Option<usize>>>, Ghost(n): Ghost<int>, Ghost(k): Ghost<int>) -> (ok: bool)
    requires
        table_ok(old(ct)@, n, k),
        adj_ok(adj@, n, old(ec)@.len() as int),
        colours_ok(old(ec)@, old(ec)@.len() as int, k),
        u < n,
        v < n,
        edge_uv < old(ec)@.len(),
        k <= u32::MAX,
    ensures
        table_ok(final(ct)@, n, k),
        colours_ok(final(ec)@, old(ec)@.len() as int, k),
        final(ec)@.len() == old(ec)@.len(),
        ok == edge_step((old(ec)@, tview(old(ct)@)), adj@, u, v, edge_uv) is Some,
        ok ==> (final(ec)@, tview(final(ct)@)) == edge_step((old(ec)@, tview(old(ct)@)), adj@, u, v, edge_uv)->0,
        ok ==> final(ec)@[edge_uv as int] is Some,
{
    let nn = ct.len();
    let ghost ec0 = ec@;
    let ghost t0 = tview(ct@);
    let mut fan: Vec<usize> = vec![v];
    let mut in_fan: Vec<bool> = Vec::new();
    let mut x: usize = 0;
    while x < nn
        invariant
            x <= nn,
            in_fan@.len() == x,
            forall|j: int| 0 <= j < x ==> !#[trigger] in_fan@[j],
        decreases nn - x,
    {
        in_fan.push(false);
        x += 1;
    }
    in_fan.set(v, true);
    proof {
        assert forall|y: int| 0 <= y < n implies #[trigger] in_fan@[y] == fan@.contains(y as usize) by {
            if fan@.contains(y as usize) {
                let j = choose|j: int| 0 <= j < fan@.len() && fan@[j] == y as usize;
                assert(j == 0);
            }
            if y == v {
                assert(fan@[0] == v);
            }
        }
    }
    proof {
        assert(fan@ =~= seq![v]);
    }
    // The fan holds distinct vertices, so it has at most `n` of them.
    let mut steps: usize = 0;
    while steps < nn
        invariant
            table_ok(ct@, n, k),
            adj_ok(adj@, n, ec@.len() as int),
            colours_ok(ec@, ec@.len() as int, k),
            ec@ == ec0,
            ec0 == old(ec)@,
            ct@ == old(ct)@,
            t0 == tview(old(ct)@),
            nn == n,
            u < n,
            v < n,
            k <= u32::MAX,
            steps <= nn,
            in_fan@.len() == n,
            fan@.len() >= 1,
            forall|j: int| 0 <= j < fan@.len() ==> #[trigger] fan@[j] < n,
            forall|y: int| 0 <= y < n ==> #[trigger] in_fan@[y] == fan@.contains(y as usize),
            fan_from(t0, adj@, ec0, u, seq![v], nn as nat) == fan_from(t0, adj@, ec0, u, fan@, (nn - steps) as nat),
        ensures
            fan_from(t0, adj@, ec0, u, seq![v], nn as nat) == Some(fan@),
        decreases nn - steps,
    {
        let tip = fan[fan.len() - 1];
        proof {
            assert(t0[tip as int] == ct@[tip as int]@);
        }
        let free_at_tip = match free_color(&ct[tip]) {
            Some(c) => c,
            None => {
                return false;
            },
        };
        let mut next: Option<usize> = None;
        let mut i: usize = 0;
        let deg = adj[u].len();
        let ghost list = adj@[u as int]@;
        proof {
            assert(list.skip(0) =~= list);
        }
        while i < deg
            invariant_except_break
                next is None,
                fan_next(list, ec@, fan@, free_at_tip) == fan_next(list.skip(i as int), ec@, fan@, free_at_tip),
            invariant
                adj_ok(adj@, n, ec@.len() as int),
                u < n,
                list == adj@[u as int]@,
                deg == list.len(),
                i <= deg,
                in_fan@.len() == n,
                forall|y: int| 0 <= y < n ==> #[trigger] in_fan@[y] == fan@.contains(y as usize),
                next matches Some(w) ==> w < n,
            ensures
                next == fan_next(list, ec@, fan@, free_at_tip),
            decreases deg - i,
        {
            proof {
                let rest = list.skip(i as int);
                assert(rest[0] == list[i as int]);
                assert(rest.drop_first() =~= list.skip(i + 1));
            }
            let (w, eidx) = adj[u][i];
            if !in_fan[w] && ec[eidx] == Some(free_at_tip) {
                next = Some(w);
                break;
            }
            i += 1;
        }
        match next {
            Some(w) => {
                let ghost oldfan = fan@;
                fan.push(w);
                in_fan.set(w, true);
                proof {
                    assert forall|y: int| 0 <= y < n implies #[trigger] in_fan@[y] == fan@.contains(y as usize) by {
                        if fan@.contains(y as usize) {
                            let j = choose|j: int| 0 <= j < fan@.len() && fan@[j] == y as usize;
                            if j < oldfan.len() {
                                assert(oldfan[j] == y as usize);
                            }
                        }
                        if oldfan.contains(y as usize) {
                            let j = choose|j: int| 0 <= j < oldfan.len() && oldfan[j] == y as usize;
                            assert(fan@[j] == y as usize);
                        }
                        if y == w {
                            assert(fan@[oldfan.len() as int] == w);
                        }
                    }
                }
            },
            None => {
                break;
            },
        }
        steps += 1;
    }
    proof {
        assert(t0[u as int] == ct@[u as int]@);
    }
    let c = match free_color(&ct[u]) {
        Some(c) => c,
        None => {
            return false;
        },
    };
    let tip = fan[fan.len() - 1];
    proof {
        assert(t0[tip as int] == ct@[tip as int]@);
    }
    let d = match free_color(&ct[tip]) {
        Some(d) => d,
        None => {
            return false;
        },
    };
    if !invert_cd_path(u, c, d, adj, ec, ct, Ghost(n), Ghost(k)) {
        return false;
    }
    let ghost t1 = tview(ct@);
    let mut rotate_to: usize = 0;
    while rotate_to < fan.len() && ct[fan[rotate_to]][d as usize].is_some()
        invariant
            table_ok(ct@, n, k),
            t1 == tview(ct@),
            forall|j: int| 0 <= j < fan@.len() ==> #[trigger] fan@[j] < n,
            d < k,
            rotate_to <= fan@.len(),
            first_fan_free(t1, fan@, d, 0) == first_fan_free(t1, fan@, d, rotate_to as int),
        decreases fan.len() - rotate_to,
    {
        proof {
            assert(t1[fan@[rotate_to as int] as int] == ct@[fan@[rotate_to as int] as int]@);
        }
        rotate_to += 1;
    }
    proof {
        if rotate_to < fan.len() {
            assert(t1[fan@[rotate_to as int] as int] == ct@[fan@[rotate_to as int] as int]@);
        }
    }
    if rotate_to == fan.len() {
        return false;
    }
    let ghost ec1 = ec@;
    let ghost ct1 = tview(ct@);
    let ok = rotate_fan_and_color(u, edge_uv, &fan, rotate_to, d, adj, ec, ct, Ghost(n), Ghost(k));
    proof {
        if ok {
            let es = fan_edges(adj@, u, edge_uv, fan@, rotate_to + 1)->0;
            lemma_fan_edges_shape(adj@, u, edge_uv, fan@, rotate_to + 1);
            assert(forall|j: int| 0 <= j < es.len() ==> (#[trigger] es[j] as int) < ec1.len()) by {
                lemma_fan_edges_bound(adj@, u, edge_uv, fan@, rotate_to + 1, n, ec1.len() as int);
            }
            let st1 = (ec1, ct1);
            let base = fan_cleared(st1, u, fan@, es, rotate_to + 1);
            lemma_fan_cleared_len(st1, u, fan@, es, rotate_to + 1);
            lemma_fan_shifted_coloured(base, ec1, u, fan@, es, rotate_to as int);
            if rotate_to > 0 {
                assert(fan_shifted(base, ec1, u, fan@, es, rotate_to as int).0[es[0] as int] is Some);
            }
        }
    }
    ok
}

/// The endpoints of each edge.
pub open spec fn edge_ends(edges: Seq<(usize, usize, InteractionId)>) -> Seq<(usize, usize)> {
    edges.map_values(|e: (usize, usize, InteractionId)| (e.0, e.1))
}

/// Two edges meet at a vertex.
pub open spec fn share_endpoint(e: (usize, usize), f: (usize, usize)) -> bool {
    e.0 == f.0 || e.0 == f.1 || e.1 == f.0 || e.1 == f.1
}

/// `colors` is a proper edge colouring of `ends` with colours below
/// `palette`: no loops, and edges that meet get different colours.
pub open spec fn proper_edge_colouring(ends: Seq<(usize, usize)>, colors: Seq<u32>, palette: int) -> bool {
    &&& colors.len() == ends.len()
    &&& forall|e: int| 0 <= e < ends.len() ==> #[trigger] colors[e] < palette && ends[e].0 != ends[e].1
    &&& forall|e: int, f: int| 0 <= e < f < ends.len() && share_endpoint(ends[e], ends[f]) ==> colors[e] != colors[f]
}

/// Edge ends at `v` among the first `m` edges (a loop counts twice).
pub open spec fn degree_of(edges: Seq<(usize, usize, InteractionId)>, v: int, m: int) -> int
    decreases m,
{
    if m <= 0 {
        0
    } else {
        degree_of(edges, v, m - 1) + (if edges[m - 1].0 == v { 1int } else { 0int }) + (if edges[m - 1].1 == v { 1int } else { 0int })
    }
}

/// The largest vertex degree Δ over vertices `0..n`.
pub open spec fn max_degree(edges: Seq<(usize, usize, InteractionId)>, n: int) -> int {
    crate::exact::seq_max(Seq::new(n as nat, |v: int| degree_of(edges, v, edges.len() as int)))
}

/// A vertex has at most two edge ends per edge.
proof fn lemma_degree_bound(edges: Seq<(usize, usize, InteractionId)>, v: int, m: int)
    requires
        0 <= m <= edges.len(),
    ensures
        0 <= degree_of(edges, v, m) <= 2 * m,
    decreases m,
{
    if m > 0 {
        lemma_degree_bound(edges, v, m - 1);
    }
}

/// Edge `e` ends at `x` with colour `c`, for some `e` among the first `m`.
spec fn colour_at(ends: Seq<(usize, usize)>, colors: Seq<u32>, x: int, c: int, m: int) -> bool {
    exists|e: int| 0 <= e < m && #[trigger] colors[e] == c && (ends[e].0 == x || ends[e].1 == x)
}

/// Every edge has a colour below `k`.
pub open spec fn all_coloured(ec: Seq<Option<u32>>, k: int) -> bool {
    forall|e: int| 0 <= e < ec.len() ==> (#[trigger] ec[e]) is Some && ec[e]->0 < k
}

/// The colours of coloured edges.
pub open spec fn colour_values(ec: Seq<Option<u32>>) -> Seq<u32> {
    ec.map_values(|o: Option<u32>| o->0)
}

/// Every edge coloured, by a proper colouring with colours at most `delta`:
/// the colours, or `None` where the check fails.
fn validate_coloring(n: usize, edges: &Vec<(usize, usize, InteractionId)>, ec: &Vec<Option<u32>>, delta: u32)
    -> (r: Option<Vec<u32>>)
    requires
        ec@.len() == edges@.len(),
        forall|e: int| 0 <= e < edges@.len() ==> (#[trigger] edges@[e]).0 < n && edges@[e].1 < n,
        delta < u32::MAX,
    ensures
        r matches Some(colors) ==> proper_edge_colouring(edge_ends(edges@), colors@, delta + 1),
        r matches Some(colors) ==> forall|e: int| 0 <= e < colors@.len() ==> ec@[e] == Some(#[trigger] colors@[e]),
        r is Some <==> all_coloured(ec@, delta + 1)
            && proper_edge_colouring(edge_ends(edges@), colour_values(ec@), delta + 1),
        r matches Some(colors) ==> colors@ == colour_values(ec@),
{
    let ghost ends = edge_ends(edges@);
    let k = delta as usize + 1;
    let mut seen: Vec<Vec<bool>> = Vec::new();
    let mut x: usize = 0;
    while x < n
        invariant
            x <= n,
            seen@.len() == x,
            forall|y: int| 0 <= y < x ==> (#[trigger] seen@[y])@.len() == k,
            forall|y: int, c: int| 0 <= y < x && 0 <= c < k ==> !(#[trigger] seen@[y]@[c]),
        decreases n - x,
    {
        let mut row: Vec<bool> = Vec::new();
        let mut c: usize = 0;
        while c < k
            invariant
                c <= k,
                row@.len() == c,
                forall|d: int| 0 <= d < c ==> !#[trigger] row@[d],
            decreases k - c,
        {
            row.push(false);
            c += 1;
        }
        seen.push(row);
        x += 1;
    }
    let mut colors: Vec<u32> = Vec::new();
    let mut idx: usize = 0;
    while idx < edges.len()
        invariant
            ends == edge_ends(edges@),
            ec@.len() == edges@.len(),
            forall|e: int| 0 <= e < edges@.len() ==> (#[trigger] edges@[e]).0 < n && edges@[e].1 < n,
            k == delta + 1,
            idx <= edges@.len(),
            colors@.len() == idx,
            seen@.len() == n,
            forall|y: int| 0 <= y < n ==> (#[trigger] seen@[y])@.len() == k,
            forall|e: int| 0 <= e < idx ==> ec@[e] == Some(#[trigger] colors@[e]),
            forall|e: int| 0 <= e < idx ==> #[trigger] colors@[e] < k && ends[e].0 != ends[e].1,
            forall|e: int, f: int| 0 <= e < f < idx && share_endpoint(ends[e], ends[f]) ==> colors@[e] != colors@[f],
            forall|y: int, c: int| 0 <= y < n && 0 <= c < k ==> (#[trigger] seen@[y]@[c] <==> colour_at(ends, colors@, y, c, idx as int)),
        decreases edges.len() - idx,
    {
        let c = match ec[idx] {
            Some(c) => c,
            None => {
                proof {
                    assert(!all_coloured(ec@, delta + 1)) by {
                        assert(ec@[idx as int] is None);
                    }
                }
                return None;
            },
        };
        if c > delta {
            proof {
                assert(!all_coloured(ec@, delta + 1)) by {
                    assert(ec@[idx as int] == Some(c));
                }
            }
            return None;
        }
        let (u, v, _) = edges[idx];
        let cc = c as usize;
        proof {
            assert(ends[idx as int] == (u, v));
        }
        if seen[u][cc] {
            proof {
                lemma_colour_clash(ec@, ends, colors@, idx as int, u as int, c, delta + 1);
            }
            return None;
        }
        let ghost before = seen@;
        {
            let row = &mut seen[u];
            row.set(cc, true);
        }
        if seen[v][cc] {
            proof {
                if u == v {
                    lemma_loop_not_proper(ends, colour_values(ec@), delta + 1, idx as int);
                } else {
                    assert(before[v as int]@[cc as int]);
                    lemma_colour_clash(ec@, ends, colors@, idx as int, v as int, c, delta + 1);
                }
            }
            return None;
        }
        let ghost mid = seen@;
        {
            let row = &mut seen[v];
            row.set(cc, true);
        }
        let ghost prev = colors@;
        colors.push(c);
        proof {
            assert(ends[idx as int] == (u, v));
            assert(u != v) by {
                if u == v {
                    assert(mid[v as int]@[cc as int]);
                }
            }
            assert forall|e: int| 0 <= e < idx + 1 implies ec@[e] == Some(#[trigger] colors@[e]) by {
                if e < idx {
                    assert(colors@[e] == prev[e]);
                }
            }
            assert forall|e: int| 0 <= e < idx + 1 implies #[trigger] colors@[e] < k && ends[e].0 != ends[e].1 by {
                if e < idx {
                    assert(colors@[e] == prev[e]);
                }
            }
            assert forall|e: int, f: int| 0 <= e < f < idx + 1 && share_endpoint(ends[e], ends[f])
                implies colors@[e] != colors@[f] by {
                assert(colors@[e] == prev[e]);
                if f == idx {
                    if prev[e] == c {
                        if ends[e].0 == u || ends[e].1 == u {
                            assert(colour_at(ends, prev, u as int, cc as int, idx as int));
                            assert(before[u as int]@[cc as int]);
                        } else {
                            assert(colour_at(ends, prev, v as int, cc as int, idx as int));
                            assert(before[v as int]@[cc as int]);
                            assert(mid[v as int]@[cc as int]);
                        }
                    }
                } else {
                    assert(colors@[f] == prev[f]);
                }
            }
            assert forall|y: int, d: int| 0 <= y < n && 0 <= d < k implies (#[trigger] seen@[y]@[d]
                <==> colour_at(ends, colors@, y, d, idx + 1)) by {
                if colour_at(ends, prev, y, d, idx as int) {
                    let e = choose|e: int| 0 <= e < idx && #[trigger] prev[e] == d && (ends[e].0 == y || ends[e].1 == y);
                    assert(colors@[e] == d);
                }
                if colour_at(ends, colors@, y, d, idx + 1) {
                    let e = choose|e: int| 0 <= e < idx + 1 && #[trigger] colors@[e] == d && (ends[e].0 == y || ends[e].1 == y);
                    if e < idx {
                        assert(prev[e] == d);
                    }
                }
                if (y == u || y == v) && d == cc {
                    assert(colors@[idx as int] == d);
                }
            }
        }
        idx += 1;
    }
    proof {
        assert(colors@ =~= colour_values(ec@)) by {
            assert forall|e: int| 0 <= e < colors@.len() implies colors@[e] == colour_values(ec@)[e] by {
                assert(ec@[e] == Some(colors@[e]));
            }
        }
        assert(all_coloured(ec@, delta + 1)) by {
            assert forall|e: int| 0 <= e < ec@.len() implies (#[trigger] ec@[e]) is Some && ec@[e]->0 < delta + 1 by {
                assert(ec@[e] == Some(colors@[e]));
                assert(colors@[e] < k);
            }
        }
        assert(proper_edge_colouring(ends, colour_values(ec@), delta + 1));
    }
    Some(colors)
}

/// A loop has no proper colouring.
proof fn lemma_loop_not_proper(ends: Seq<(usize, usize)>, vals: Seq<u32>, k: int, i: int)
    requires
        0 <= i < ends.len(),
        ends[i].0 == ends[i].1,
    ensures
        !proper_edge_colouring(ends, vals, k),
{
    if proper_edge_colouring(ends, vals, k) {
        assert(vals[i] < k);
        assert(ends[i].0 != ends[i].1);
        assert(false);
    }
}

/// An earlier edge of colour `c` at `x`, an endpoint of edge `idx` of
/// colour `c`, leaves no proper colouring of all the edges.
proof fn lemma_colour_clash(ec: Seq<Option<u32>>, ends: Seq<(usize, usize)>, colors: Seq<u32>, idx: int, x: int, c: u32, k: int)
    requires
        0 <= idx < ec.len(),
        ends.len() == ec.len(),
        colors.len() == idx,
        forall|e: int| 0 <= e < idx ==> ec[e] == Some(#[trigger] colors[e]),
        ec[idx] == Some(c),
        ends[idx].0 == x || ends[idx].1 == x,
        colour_at(ends, colors, x, c as int, idx),
    ensures
        !(all_coloured(ec, k) && proper_edge_colouring(ends, colour_values(ec), k)),
{
    let e = choose|e: int| 0 <= e < idx && #[trigger] colors[e] == c && (ends[e].0 == x || ends[e].1 == x);
    let vals = colour_values(ec);
    assert(ec[e] == Some(colors[e]));
    assert(vals[e] == c);
    assert(vals[idx] == c);
    assert(share_endpoint(ends[e], ends[idx]));
}

/// Record neighbour `w` over edge `e` in a sorted adjacency list (an entry
/// for `w` already there takes the new edge).
fn adj_insert(list: &mut Vec<(usize, usize)>, w: usize, e: usize, Ghost(n): Ghost<int>, Ghost(m): Ghost<int>)
    requires
        forall|i: int| 0 <= i < old(list)@.len() ==> (#[trigger] old(list)@[i]).0 < n && old(list)@[i].1 < m,
        forall|i: int, j: int| 0 <= i < j < old(list)@.len() ==> (#[trigger] old(list)@[i]).0 < (#[trigger] old(list)@[j]).0,
        w < n,
        e < m,
    ensures
        forall|i: int| 0 <= i < final(list)@.len() ==> (#[trigger] final(list)@[i]).0 < n && final(list)@[i].1 < m,
        forall|i: int, j: int| 0 <= i < j < final(list)@.len() ==> (#[trigger] final(list)@[i]).0 < (#[trigger] final(list)@[j]).0,
        forall|p: (usize, usize)| #[trigger] final(list)@.contains(p) <==> (p == (w, e) || (old(list)@.contains(p) && p.0 != w)),
{
    let ghost old_list = list@;
    let mut i: usize = 0;
    while i < list.len() && list[i].0 < w
        invariant
            i <= list@.len(),
            list@ == old_list,
            forall|j: int| 0 <= j < i ==> (#[trigger] list@[j]).0 < w,
        decreases list.len() - i,
    {
        i += 1;
    }
    if i < list.len() && list[i].0 == w {
        list.set(i, (w, e));
        proof {
            assert forall|p: (usize, usize)| #[trigger] list@.contains(p) <==> (p == (w, e) || (old_list.contains(p) && p.0 != w)) by {
                if list@.contains(p) {
                    let k = choose|k: int| 0 <= k < list@.len() && list@[k] == p;
                    if k != i {
                        assert(old_list[k] == p);
                        if k < i {
                            assert(old_list[k].0 < old_list[i as int].0);
                        } else {
                            assert(old_list[i as int].0 < old_list[k].0);
                        }
                    }
                }
                if p == (w, e) {
                    assert(list@[i as int] == p);
                }
                if old_list.contains(p) && p.0 != w {
                    let k = choose|k: int| 0 <= k < old_list.len() && old_list[k] == p;
                    assert(k != i);
                    assert(list@[k] == p);
                }
            }
        }
    } else {
        proof {
            assert forall|k: int| 0 <= k < old_list.len() implies (#[trigger] old_list[k]).0 != w by {
                if k >= i {
                    assert(old_list[i as int].0 > w);
                    if k > i {
                        assert(old_list[i as int].0 < old_list[k].0);
                    }
                }
            }
        }
        list.insert(i, (w, e));
        proof {
            assert forall|p: (usize, usize)| #[trigger] list@.contains(p) <==> (p == (w, e) || (old_list.contains(p) && p.0 != w)) by {
                if list@.contains(p) {
                    let k = choose|k: int| 0 <= k < list@.len() && list@[k] == p;
                    if k < i {
                        assert(old_list[k] == p);
                    } else if k > i {
                        assert(old_list[k - 1] == p);
                    }
                }
                if p == (w, e) {
                    assert(list@[i as int] == p);
                }
                if old_list.contains(p) && p.0 != w {
                    let k = choose|k: int| 0 <= k < old_list.len() && old_list[k] == p;
                    if k < i {
                        assert(list@[k] == p);
                    } else {
                        assert(list@[k + 1] == p);
                    }
                }
            }
        }
    }
}

/// `(min, max, id)` of an edge.
pub open spec fn edge_key(a: (usize, usize, InteractionId)) -> (usize, usize, u32) {
    if a.0 < a.1 { (a.0, a.1, a.2.0) } else { (a.1, a.0, a.2.0) }
}

/// Edge `a` comes before edge `b` in `(min, max, id)` order.
pub open spec fn edge_key_lt(a: (usize, usize, InteractionId), b: (usize, usize, InteractionId)) -> bool {
    let ka = edge_key(a);
    let kb = edge_key(b);
    ka.0 < kb.0 || (ka.0 == kb.0 && (ka.1 < kb.1 || (ka.1 == kb.1 && ka.2 < kb.2)))
}

/// `(min, max, id)` of an edge: the order in which edges are coloured.
fn edge_key_less(a: (usize, usize, InteractionId), b: (usize, usize, InteractionId)) -> (r: bool)
    ensures
        r == edge_key_lt(a, b),
{
    let (a0, a1) = if a.0 < a.1 { (a.0, a.1) } else { (a.1, a.0) };
    let (b0, b1) = if b.0 < b.1 { (b.0, b.1) } else { (b.1, b.0) };
    a0 < b0 || (a0 == b0 && (a1 < b1 || (a1 == b1 && a.2.0 < b.2.0)))
}

/// Edge `e` joins `v` and `w`, in either direction.
pub open spec fn joins(e: (usize, usize, InteractionId), v: int, w: int) -> bool {
    (e.0 == v && e.1 == w) || (e.1 == v && e.0 == w)
}

/// The last of the first `m` edges joining `v` and `w`.
pub open spec fn last_edge_between(edges: Seq<(usize, usize, InteractionId)>, v: int, w: int, m: int) -> Option<usize>
    decreases m,
{
    if m <= 0 {
        None
    } else if joins(edges[m - 1], v, w) {
        Some((m - 1) as usize)
    } else {
        last_edge_between(edges, v, w, m - 1)
    }
}

/// The adjacency lists the first `m` edges build: each vertex's entries
/// `(w, e)`, `e` the last edge joining it to `w`.
pub open spec fn adjacency_of(edges: Seq<(usize, usize, InteractionId)>, n: int, adj: Seq<Vec<(usize, usize)>>, m: int) -> bool {
    &&& adj.len() == n
    &&& forall|v: int, p: (usize, usize)| 0 <= v < n ==> (#[trigger] adj[v]@.contains(p)
        <==> last_edge_between(edges, v, p.0 as int, m) == Some(p.1))
}

/// A colouring order: every edge index once.
#[verifier::opaque]
pub open spec fn edge_order(order: Seq<usize>, m: int) -> bool {
    &&& order.len() == m
    &&& order.no_duplicates()
    &&& forall|i: int| 0 <= i < order.len() ==> (#[trigger] order[i] as int) < m
}

/// Edge colours and colour table before any edge is coloured: `m` edges,
/// `n` vertices, `k` colours.
pub open spec fn mg_start(m: int, n: int, k: int) -> (Seq<Option<u32>>, Seq<Seq<Option<usize>>>) {
    (Seq::new(m as nat, |e: int| None::<u32>), Seq::new(n as nat, |v: int| Seq::new(k as nat, |c: int| None::<usize>)))
}

/// Colours and table after the Misra–Gries steps for the first `t` edges
/// of `order`, or `None` if a step finds nothing.
#[verifier::opaque]
pub open spec fn mg_run(st: (Seq<Option<u32>>, Seq<Seq<Option<usize>>>), adj: Seq<Vec<(usize, usize)>>,
    edges: Seq<(usize, usize, InteractionId)>, order: Seq<usize>, t: int) -> Option<(Seq<Option<u32>>, Seq<Seq<Option<usize>>>)>
    decreases t,
{
    if t <= 0 {
        Some(st)
    } else {
        match mg_run(st, adj, edges, order, t - 1) {
            None => None,
            Some(s) => {
                let e = order[t - 1];
                edge_step(s, adj, edges[e as int].0, edges[e as int].1, e)
            },
        }
    }
}

/// The colouring Misra–Gries reaches with these adjacency lists and order
/// on `n` vertices and Δ + 1 colours, if every step succeeds and the result
/// is a proper colouring of every edge in Δ + 1 colours.
#[verifier::opaque]
pub open spec fn mg_colouring(edges: Seq<(usize, usize, InteractionId)>, n: int, adj: Seq<Vec<(usize, usize)>>,
    order: Seq<usize>, delta: int) -> Option<Seq<u32>> {
    match mg_run(mg_start(edges.len() as int, n, delta + 1), adj, edges, order, edges.len() as int) {
        None => None,
        Some(fin) => if all_coloured(fin.0, delta + 1)
            && proper_edge_colouring(edge_ends(edges), colour_values(fin.0), delta + 1) {
            Some(colour_values(fin.0))
        } else {
            None
        },
    }
}

proof fn lemma_mg_run_none(st: (Seq<Option<u32>>, Seq<Seq<Option<usize>>>), adj: Seq<Vec<(usize, usize)>>,
    edges: Seq<(usize, usize, InteractionId)>, order: Seq<usize>, a: int, b: int)
    requires
        0 <= a <= b,
        mg_run(st, adj, edges, order, a) is None,
    ensures
        mg_run(st, adj, edges, order, b) is None,
    decreases b - a,
{
    if a < b {
        lemma_mg_run_none(st, adj, edges, order, a, b - 1);
        reveal(mg_run);
    }
}

/// Misra–Gries edge colouring of a graph on vertices `0..n`: one colour per
/// edge, in edge order, and Δ. Edges are coloured in `(min, max, id)` order.
/// A colouring that comes back has been checked to be proper with colours
/// at most Δ, so at most Δ + 1 colours. `None` only where a step of the
/// construction, or the final check, finds what the Misra–Gries theorem
/// rules out on a simple graph.
pub fn misra_gries_color(n: usize, edges: &Vec<(usize, usize, InteractionId)>) -> (r: Option<(Vec<u32>, u32)>)
    requires
        forall|e: int| 0 <= e < edges@.len() ==> (#[trigger] edges@[e]).0 < n && edges@[e].1 < n,
        2 * edges@.len() < u32::MAX,
    ensures
        edges@.len() == 0 ==> (r matches Some((colors, delta)) && colors@.len() == 0 && delta == 0),
        r matches Some((colors, delta)) ==> edges@.len() > 0 ==> delta == max_degree(edges@, n as int),
        r matches Some((colors, delta)) ==> proper_edge_colouring(edge_ends(edges@), colors@, delta + 1),
        edges@.len() > 0 ==> exists|adj: Seq<Vec<(usize, usize)>>, order: Seq<usize>|
            #[trigger] adjacency_of(edges@, n as int, adj, edges@.len() as int) && #[trigger] edge_order(order, edges@.len() as int)
            && (r is Some <==> mg_colouring(edges@, n as int, adj, order, max_degree(edges@, n as int)) is Some)
            && (r matches Some((colors, delta)) ==> colors@ == mg_colouring(edges@, n as int, adj, order,
                max_degree(edges@, n as int))->0),
{
    let m = edges.len();
    if m == 0 {
        return Some((Vec::new(), 0));
    }
    let mut adj: Vec<Vec<(usize, usize)>> = Vec::new();
    let mut degree: Vec<u32> = Vec::new();
    let mut x: usize = 0;
    while x < n
        invariant
            x <= n,
            adj@.len() == x,
            degree@.len() == x,
            forall|y: int| 0 <= y < x ==> (#[trigger] adj@[y])@.len() == 0,
            forall|y: int| 0 <= y < x ==> #[trigger] degree@[y] == 0,
        decreases n - x,
    {
        adj.push(Vec::new());
        degree.push(0);
        x += 1;
    }
    proof {
        reveal(adjacency_of);
        assert(adjacency_of(edges@, n as int, adj@, 0));
    }
    let mut idx: usize = 0;
    while idx < m
        invariant
            m == edges@.len(),
            2 * m < u32::MAX,
            forall|e: int| 0 <= e < edges@.len() ==> (#[trigger] edges@[e]).0 < n && edges@[e].1 < n,
            idx <= m,
            adj_ok(adj@, n as int, m as int),
            adjacency_of(edges@, n as int, adj@, idx as int),
            degree@.len() == n,
            forall|y: int| 0 <= y < n ==> #[trigger] degree@[y] == degree_of(edges@, y, idx as int),
        decreases m - idx,
    {
        let (u, v, _) = edges[idx];
        let ghost a0 = adj@;
        {
            let list = &mut adj[u];
            adj_insert(list, v, idx, Ghost(n as int), Ghost(m as int));
        }
        let ghost a1 = adj@;
        {
            let list = &mut adj[v];
            adj_insert(list, u, idx, Ghost(n as int), Ghost(m as int));
        }
        proof {
            reveal(adjacency_of);
            assert(edges@[idx as int] == (u, v, edges@[idx as int].2));
            assert forall|x: int, p: (usize, usize)| 0 <= x < n implies (#[trigger] adj@[x]@.contains(p)
                <==> last_edge_between(edges@, x, p.0 as int, idx + 1) == Some(p.1)) by {
                assert(a0[x]@.contains(p) <==> last_edge_between(edges@, x, p.0 as int, idx as int) == Some(p.1));
                if x != u && x != v {
                    assert(adj@[x] == a0[x]);
                } else if x == u && x != v {
                    assert(adj@[x] == a1[x]);
                } else if x == v && x != u {
                    assert(a1[x] == a0[x]);
                }
            }
            assert(adjacency_of(edges@, n as int, adj@, idx + 1));
        }
        proof {
            lemma_degree_bound(edges@, u as int, idx as int);
            lemma_degree_bound(edges@, v as int, idx as int);
        }
        let du = degree[u];
        degree.set(u, du + 1);
        let dv = degree[v];
        degree.set(v, dv + 1);
        proof {
            assert forall|y: int| 0 <= y < n implies #[trigger] degree@[y] == degree_of(edges@, y, idx + 1) by {
                assert(edges@[idx as int] == (u, v, edges@[idx as int].2));
            }
            assert forall|a: int, i: int| 0 <= a < n && 0 <= i < adj@[a]@.len()
                implies (#[trigger] adj@[a]@[i]).0 < n && adj@[a]@[i].1 < m by {}
        }
        idx += 1;
    }
    // Δ, the largest degree.
    let mut delta: u32 = 0;
    let mut y: usize = 0;
    while y < n
        invariant
            degree@.len() == n,
            m == edges@.len(),
            y <= n,
            forall|z: int| 0 <= z < n ==> #[trigger] degree@[z] == degree_of(edges@, z, m as int),
            forall|z: int| 0 <= z < y ==> degree@[z] <= delta,
            delta == 0 || exists|z: int| 0 <= z < y && degree@[z] == delta,
            delta <= 2 * m,
        decreases n - y,
    {
        proof {
            lemma_degree_bound(edges@, y as int, m as int);
        }
        if degree[y] > delta {
            delta = degree[y];
        }
        y += 1;
    }
    proof {
        let ds = Seq::new(n as nat, |v: int| degree_of(edges@, v, edges@.len() as int));
        assert forall|p: int| 0 <= p < ds.len() implies 0 <= #[trigger] ds[p] <= delta by {
            lemma_degree_bound(edges@, p, m as int);
            assert(degree@[p] <= delta);
        }
        if delta != 0 {
            let p = choose|p: int| 0 <= p < n && degree@[p] == delta;
            assert(ds[p] == delta);
        }
        crate::exact::lemma_max_of(ds, delta as int);
    }
    let k = delta as usize + 1;
    let mut ec: Vec<Option<u32>> = Vec::new();
    let mut e: usize = 0;
    while e < m
        invariant
            e <= m,
            ec@.len() == e,
            forall|j: int| 0 <= j < e ==> #[trigger] ec@[j] is None,
        decreases m - e,
    {
        ec.push(None);
        e += 1;
    }
    let mut ct: Vec<Vec<Option<usize>>> = Vec::new();
    let mut x: usize = 0;
    while x < n
        invariant
            x <= n,
            ct@.len() == x,
            forall|z: int| 0 <= z < x ==> (#[trigger] ct@[z])@.len() == k,
            forall|z: int, c: int| 0 <= z < x && 0 <= c < k ==> (#[trigger] ct@[z]@[c]) is None,
        decreases n - x,
    {
        let mut row: Vec<Option<usize>> = Vec::new();
        let mut c: usize = 0;
        while c < k
            invariant
                c <= k,
                row@.len() == c,
                forall|d: int| 0 <= d < c ==> (#[trigger] row@[d]) is None,
            decreases k - c,
        {
            row.push(None);
            c += 1;
        }
        ct.push(row);
        x += 1;
    }
    proof {
        let st0 = mg_start(m as int, n as int, k as int);
        assert(ec@ =~= st0.0);
        assert forall|z: int| 0 <= z < n implies #[trigger] tview(ct@)[z] =~= st0.1[z] by {
            assert(tview(ct@)[z] == ct@[z]@);
        }
        assert(tview(ct@) =~= st0.1);
        reveal(mg_run);
    }
    // Colouring order: by (min endpoint, max endpoint, id), ties kept in edge order.
    let mut order: Vec<usize> = Vec::new();
    proof {
        reveal(edge_order);
        assert(edge_order(order@, 0));
    }
    let mut e: usize = 0;
    while e < m
        invariant
            m == edges@.len(),
            e <= m,
            forall|j: int| 0 <= j < order@.len() ==> #[trigger] order@[j] < m,
            edge_order(order@, e as int),
        decreases m - e,
    {
        let mut pos: usize = order.len();
        while pos > 0 && edge_key_less(edges[e], edges[order[pos - 1]])
            invariant
                pos <= order@.len(),
                m == edges@.len(),
                e < m,
                forall|j: int| 0 <= j < order@.len() ==> #[trigger] order@[j] < m,
            decreases pos,
        {
            pos -= 1;
        }
        let ghost o0 = order@;
        order.insert(pos, e);
        proof {
            reveal(edge_order);
            assert(order@ == o0.insert(pos as int, e));
            assert forall|i: int, j: int| 0 <= i < order@.len() && 0 <= j < order@.len() && i != j
                implies order@[i] != order@[j] by {
                let oi = if i < pos { i } else if i == pos { -1 } else { i - 1 };
                let oj = if j < pos { j } else if j == pos { -1 } else { j - 1 };
                if oi >= 0 && oj >= 0 {
                    assert(o0[oi] != o0[oj]);
                } else if oi >= 0 {
                    assert((o0[oi] as int) < e);
                } else if oj >= 0 {
                    assert((o0[oj] as int) < e);
                }
            }
            assert(edge_order(order@, e + 1));
        }
        e += 1;
    }
    let mut t: usize = 0;
    while t < order.len()
        invariant
            m == edges@.len(),
            forall|j: int| 0 <= j < order@.len() ==> #[trigger] order@[j] < m,
            forall|e: int| 0 <= e < edges@.len() ==> (#[trigger] edges@[e]).0 < n && edges@[e].1 < n,
            table_ok(ct@, n as int, k as int),
            adj_ok(adj@, n as int, m as int),
            colours_ok(ec@, m as int, k as int),
            k <= u32::MAX,
            t <= order@.len(),
            order@.len() == m,
            adjacency_of(edges@, n as int, adj@, m as int),
            edge_order(order@, m as int),
            delta == max_degree(edges@, n as int),
            k == delta + 1,
            m == edges@.len(),
            mg_run(mg_start(m as int, n as int, k as int), adj@, edges@, order@, t as int) == Some((ec@, tview(ct@))),
        decreases order.len() - t,
    {
        let edge_idx = order[t];
        let (u, v, _) = edges[edge_idx];
        if !color_edge(u, v, edge_idx, &adj, &mut ec, &mut ct, Ghost(n as int), Ghost(k as int)) {
            proof {
                reveal(mg_run);
                lemma_mg_run_none(mg_start(m as int, n as int, k as int), adj@, edges@, order@, t + 1, m as int);
                reveal(mg_colouring);
                assert(adjacency_of(edges@, n as int, adj@, m as int));
                assert(edge_order(order@, m as int));
            }
            return None;
        }
        proof {
            reveal(mg_run);
        }
        t += 1;
    }
    proof {
        assert(adjacency_of(edges@, n as int, adj@, m as int));
        assert(edge_order(order@, m as int));
        reveal(mg_colouring);
    }
    match validate_coloring(n, edges, &ec, delta) {
        Some(colors) => Some((colors, delta)),
        None => None,
    }
}

/// Why entangling layers could not be scheduled.
#[derive(Clone, Copy, Debug, PartialEq, Eq, Structural)]
pub enum EntanglingScheduleError {
    /// The parallel entangling capacity must be at least one.
    InvalidCapacity(u32),
    /// A layer touches this atom twice.
    Conflict { cycle: u32, atom: AtomId },
    /// A commutation group holds an interaction on other than two qubits.
    MultiQubitCommutation(InteractionId),
    /// Two interactions of a commutation group act on the same qubit pair.
    DuplicatePair(LogicalQubitId, LogicalQubitId),
    /// A segment names an interaction the graph does not have.
    UnknownInteraction(InteractionId),
    /// The edge colouring of a commutation group did not complete.
    ColouringIncomplete,
}

/// The unordered qubit pair of a two-qubit interaction, smaller first.
pub open spec fn qubit_pair(i: Interaction) -> (u32, u32) {
    let a = i.qubits@[0].0;
    let b = i.qubits@[1].0;
    if a < b { (a, b) } else { (b, a) }
}

/// `entry` pairs an interaction among the first `g` of `group` with its qubit pair.
spec fn pair_from_group(all: Seq<Interaction>, group: Seq<usize>, g: int, entry: ((u32, u32), usize)) -> bool {
    exists|j: int| 0 <= j < g && #[trigger] group[j] == entry.1 && qubit_pair(all[group[j] as int]) == entry.0
}

/// Values sorted strictly increasing.
pub open spec fn strictly_increasing(s: Seq<u32>) -> bool {
    forall|i: int, j: int| 0 <= i < j < s.len() ==> s[i] < s[j]
}

/// Insert `x` into a strictly increasing list unless present.
fn insert_vertex(v: &mut Vec<u32>, x: u32)
    requires
        strictly_increasing(old(v)@),
    ensures
        strictly_increasing(final(v)@),
        forall|y: u32| #[trigger] final(v)@.contains(y) <==> (old(v)@.contains(y) || y == x),
{
    let mut i: usize = 0;
    while i < v.len() && v[i] < x
        invariant
            i <= v@.len(),
            strictly_increasing(v@),
            v@ == old(v)@,
            forall|j: int| 0 <= j < i ==> v@[j] < x,
        decreases v.len() - i,
    {
        i += 1;
    }
    if i < v.len() && v[i] == x {
        return;
    }
    v.insert(i, x);
    proof {
        assert forall|y: u32| #[trigger] v@.contains(y) <==> (old(v)@.contains(y) || y == x) by {
            if old(v)@.contains(y) {
                let j = choose|j: int| 0 <= j < old(v)@.len() && old(v)@[j] == y;
                if j < i {
                    assert(v@[j] == y);
                } else {
                    assert(v@[j + 1] == y);
                }
            }
            if v@.contains(y) {
                let j = choose|j: int| 0 <= j < v@.len() && v@[j] == y;
                if j < i {
                    assert(old(v)@[j] == y);
                } else if j > i {
                    assert(old(v)@[j - 1] == y);
                }
            }
            if y == x {
                assert(v@[i as int] == x);
            }
        }
    }
}

/// Lexicographic order of qubit pairs.
fn key_lt(a: (u32, u32), b: (u32, u32)) -> (r: bool)
    ensures
        r == crate::graph::pair_lt_u32(a, b),
{
    a.0 < b.0 || (a.0 == b.0 && a.1 < b.1)
}

/// The position of `x` in a list that holds it.
fn rank_of(v: &Vec<u32>, x: u32) -> (r: usize)
    requires
        v@.contains(x),
    ensures
        r < v@.len(),
        v@[r as int] == x,
{
    let mut i: usize = 0;
    while i < v.len()
        invariant
            i <= v@.len(),
            v@.contains(x),
            forall|j: int| 0 <= j < i ==> v@[j] != x,
        decreases v.len() - i,
    {
        if v[i] == x {
            return i;
        }
        i += 1;
    }
    proof {
        let j = choose|j: int| 0 <= j < v@.len() && v@[j] == x;
        assert(v@[j] != x);
    }
    0
}

/// The interaction index of each pair entry.
spec fn pair_indices(p: Seq<((u32, u32), usize)>) -> Seq<usize> {
    p.map_values(|e: ((u32, u32), usize)| e.1)
}

/// The entries `idx[q]`, `q < m`, whose colour is below `c`.
spec fn coloured_below(idx: Seq<usize>, colors: Seq<u32>, c: int, m: int) -> Multiset<usize>
    decreases m,
{
    if m <= 0 {
        Multiset::empty()
    } else {
        coloured_below(idx, colors, c, m - 1).add(
            if colors[m - 1] < c { Multiset::singleton(idx[m - 1]) } else { Multiset::empty() })
    }
}

/// The entries `idx[q]`, `q < m`, of colour exactly `c`.
spec fn coloured_exactly(idx: Seq<usize>, colors: Seq<u32>, c: int, m: int) -> Multiset<usize>
    decreases m,
{
    if m <= 0 {
        Multiset::empty()
    } else {
        coloured_exactly(idx, colors, c, m - 1).add(
            if colors[m - 1] == c { Multiset::singleton(idx[m - 1]) } else { Multiset::empty() })
    }
}

proof fn lemma_coloured_split(idx: Seq<usize>, colors: Seq<u32>, c: int, m: int)
    ensures
        coloured_below(idx, colors, c + 1, m) =~= coloured_below(idx, colors, c, m).add(coloured_exactly(idx, colors, c, m)),
    decreases m,
{
    broadcast use vstd::multiset::group_multiset_axioms;
    if m > 0 {
        lemma_coloured_split(idx, colors, c, m - 1);
    }
}

proof fn lemma_coloured_below_zero(idx: Seq<usize>, colors: Seq<u32>, m: int)
    ensures
        coloured_below(idx, colors, 0, m) =~= Multiset::<usize>::empty(),
    decreases m,
{
    if m > 0 {
        lemma_coloured_below_zero(idx, colors, m - 1);
    }
}

proof fn lemma_coloured_below_all(idx: Seq<usize>, colors: Seq<u32>, c: int, m: int)
    requires
        0 <= m <= idx.len(),
        m <= colors.len(),
        forall|q: int| 0 <= q < m ==> #[trigger] colors[q] < c,
    ensures
        coloured_below(idx, colors, c, m) =~= idx.take(m).to_multiset(),
    decreases m,
{
    broadcast use vstd::multiset::group_multiset_axioms;
    if m > 0 {
        lemma_coloured_below_all(idx, colors, c, m - 1);
        assert(idx.take(m) =~= idx.take(m - 1).push(idx[m - 1]));
        assert(idx.take(m - 1).push(idx[m - 1]).to_multiset() =~= idx.take(m - 1).to_multiset().insert(idx[m - 1]));
    }
}

/// Two qubit pairs share no qubit.
pub open spec fn pairs_disjoint(p: (u32, u32), q: (u32, u32)) -> bool {
    p.0 != q.0 && p.0 != q.1 && p.1 != q.0 && p.1 != q.1
}

/// A colour class: its interactions share no qubit, in nondecreasing id order.
pub open spec fn matching_class(all: Seq<Interaction>, class: Seq<usize>) -> bool {
    &&& forall|t1: int, t2: int| 0 <= t1 < class.len() && 0 <= t2 < class.len() && t1 != t2
        ==> pairs_disjoint(qubit_pair(all[#[trigger] class[t1] as int]), qubit_pair(all[#[trigger] class[t2] as int]))
    &&& forall|t1: int, t2: int| 0 <= t1 < t2 < class.len() ==> all[#[trigger] class[t1] as int].id.0 <= all[#[trigger] class[t2] as int].id.0
}

/// One more member, on a pair the sorted pair list lacks, keeps the prefix
/// simple, and the extended list still names every member's pair.
proof fn lemma_simple_step(all: Seq<Interaction>, group: Seq<usize>, g: int, old_pairs: Seq<((u32, u32), usize)>,
    pairs: Seq<((u32, u32), usize)>, pos: int, key: (u32, u32))
    requires
        0 <= g < group.len(),
        0 <= pos <= old_pairs.len(),
        pairs == old_pairs.insert(pos, (key, group[g])),
        key == qubit_pair(all[group[g] as int]),
        all[group[g] as int].qubits@.len() == 2,
        forall|p: int| 0 <= p < pos ==> crate::graph::pair_lt_u32(#[trigger] old_pairs[p].0, key),
        pos < old_pairs.len() ==> old_pairs[pos].0 != key && !crate::graph::pair_lt_u32(old_pairs[pos].0, key),
        forall|p: int, q: int| 0 <= p < q < old_pairs.len()
            ==> crate::graph::pair_lt_u32(#[trigger] old_pairs[p].0, #[trigger] old_pairs[q].0),
        simple_prefix(all, group, g),
        pair_indices(old_pairs).to_multiset() =~= group.take(g).to_multiset(),
        forall|p: int| 0 <= p < old_pairs.len() ==> pair_from_group(all, group, g, #[trigger] old_pairs[p]),
    ensures
        simple_prefix(all, group, g + 1),
{
    assert forall|p: int| 0 <= p < old_pairs.len() implies old_pairs[p].0 != key by {
        if p < pos {
            assert(crate::graph::pair_lt_u32(old_pairs[p].0, key));
        } else if p > pos {
            assert(crate::graph::pair_lt_u32(old_pairs[pos].0, old_pairs[p].0));
        }
    }
    assert forall|i: int, j: int| 0 <= i < j < g + 1 implies qubit_pair(all[#[trigger] group[i] as int])
        != qubit_pair(all[#[trigger] group[j] as int]) by {
        if j == g {
            let x = group[i];
            group.take(g).to_multiset_ensures();
            pair_indices(old_pairs).to_multiset_ensures();
            assert(group.take(g)[i] == x);
            assert(group.take(g).contains(x));
            assert(group.take(g).to_multiset().count(x) > 0);
            assert(pair_indices(old_pairs).to_multiset().count(x) > 0);
            assert(pair_indices(old_pairs).contains(x));
            let p = choose|p: int| 0 <= p < pair_indices(old_pairs).len() && pair_indices(old_pairs)[p] == x;
            assert(old_pairs[p].1 == x);
            assert(pair_from_group(all, group, g, old_pairs[p]));
            let jj = choose|jj: int| 0 <= jj < g && #[trigger] group[jj] == old_pairs[p].1
                && qubit_pair(all[group[jj] as int]) == old_pairs[p].0;
            assert(old_pairs[p].0 != key);
        }
    }
}

/// Edge ends of pair `p` at qubit `q` (a loop counts twice).
pub open spec fn touches(p: (u32, u32), q: u32) -> int {
    (if p.0 == q { 1int } else { 0int }) + (if p.1 == q { 1int } else { 0int })
}

/// Degree of qubit `q` in the graph of the first `m` interactions `idx`.
pub open spec fn idx_degree(all: Seq<Interaction>, idx: Seq<usize>, q: u32, m: int) -> int
    decreases m,
{
    if m <= 0 { 0 } else { idx_degree(all, idx, q, m - 1) + touches(qubit_pair(all[idx[m - 1] as int]), q) }
}

/// `d` is Δ of the qubit graph of a commutation group: the largest qubit
/// degree (0 for an empty group).
pub open spec fn is_group_delta(all: Seq<Interaction>, group: Seq<usize>, d: int) -> bool {
    &&& forall|q: u32| #[trigger] idx_degree(all, group, q, group.len() as int) <= d
    &&& group.len() > 0 ==> exists|q: u32| #[trigger] idx_degree(all, group, q, group.len() as int) == d
    &&& group.len() == 0 ==> d == 0
}

/// Degree of qubit `q` over the first `m` sorted pairs.
spec fn pairs_degree(ps: Seq<((u32, u32), usize)>, q: u32, m: int) -> int
    decreases m,
{
    if m <= 0 { 0 } else { pairs_degree(ps, q, m - 1) + touches(ps[m - 1].0, q) }
}

proof fn lemma_seq_max_props(s: Seq<int>)
    requires
        forall|i: int| 0 <= i < s.len() ==> #[trigger] s[i] >= 0,
    ensures
        forall|i: int| 0 <= i < s.len() ==> #[trigger] s[i] <= crate::exact::seq_max(s),
        s.len() > 0 ==> exists|i: int| 0 <= i < s.len() && s[i] == crate::exact::seq_max(s),
    decreases s.len(),
{
    if s.len() > 0 {
        lemma_seq_max_props(s.drop_last());
        assert forall|i: int| 0 <= i < s.len() implies #[trigger] s[i] <= crate::exact::seq_max(s) by {
            if i < s.len() - 1 {
                assert(s.drop_last()[i] == s[i]);
            }
        }
        assert forall|i: int| 0 <= i < s.drop_last().len() implies #[trigger] s.drop_last()[i] >= 0 by {
            assert(s.drop_last()[i] == s[i]);
        }
        if s.last() > crate::exact::seq_max(s.drop_last()) {
            assert(s[s.len() - 1] == crate::exact::seq_max(s));
        }
        if s.len() > 1 && s.last() <= crate::exact::seq_max(s.drop_last()) {
            let i = choose|i: int| 0 <= i < s.drop_last().len() && s.drop_last()[i] == crate::exact::seq_max(s.drop_last());
            assert(s[i] == s.drop_last()[i]);
        }
        if s.len() == 1 {
            assert(crate::exact::seq_max(s.drop_last()) == 0);
            assert(s[0] >= 0);
        }
    }
}

/// The degree of a vertex rank in the rank edges is the degree of its
/// qubit over the pairs.
proof fn lemma_rank_degree(edges: Seq<(usize, usize, InteractionId)>, ps: Seq<((u32, u32), usize)>, vertices: Seq<u32>,
    v: int, m: int)
    requires
        0 <= m <= edges.len(),
        edges.len() == ps.len(),
        0 <= v < vertices.len(),
        strictly_increasing(vertices),
        forall|e: int| 0 <= e < edges.len() ==> (#[trigger] edges[e]).0 < vertices.len() && edges[e].1 < vertices.len(),
        forall|e: int| 0 <= e < edges.len() ==> vertices[(#[trigger] edges[e]).0 as int] == ps[e].0.0
            && vertices[edges[e].1 as int] == ps[e].0.1,
    ensures
        degree_of(edges, v, m) == pairs_degree(ps, vertices[v], m),
    decreases m,
{
    if m > 0 {
        lemma_rank_degree(edges, ps, vertices, v, m - 1);
        let e = edges[m - 1];
        assert(vertices[e.0 as int] == ps[m - 1].0.0);
        assert((e.0 == v) == (ps[m - 1].0.0 == vertices[v])) by {
            if e.0 != v {
                if (e.0 as int) < v {
                    assert(vertices[e.0 as int] < vertices[v]);
                } else {
                    assert(vertices[v] < vertices[e.0 as int]);
                }
            }
        }
        assert((e.1 == v) == (ps[m - 1].0.1 == vertices[v])) by {
            if e.1 != v {
                if (e.1 as int) < v {
                    assert(vertices[e.1 as int] < vertices[v]);
                } else {
                    assert(vertices[v] < vertices[e.1 as int]);
                }
            }
        }
    }
}

proof fn lemma_pairs_degree_idx(all: Seq<Interaction>, ps: Seq<((u32, u32), usize)>, q: u32, m: int)
    requires
        0 <= m <= ps.len(),
        forall|w: int| 0 <= w < ps.len() ==> ps[w].0 == qubit_pair(all[(#[trigger] ps[w]).1 as int]),
    ensures
        pairs_degree(ps, q, m) == idx_degree(all, pair_indices(ps), q, m),
    decreases m,
{
    if m > 0 {
        lemma_pairs_degree_idx(all, ps, q, m - 1);
        assert(pair_indices(ps)[m - 1] == ps[m - 1].1);
    }
}

proof fn lemma_pairs_degree_absent(ps: Seq<((u32, u32), usize)>, q: u32, m: int)
    requires
        0 <= m <= ps.len(),
        forall|e: int| 0 <= e < ps.len() ==> (#[trigger] ps[e]).0.0 != q && ps[e].0.1 != q,
    ensures
        pairs_degree(ps, q, m) == 0,
    decreases m,
{
    if m > 0 {
        lemma_pairs_degree_absent(ps, q, m - 1);
    }
}

proof fn lemma_idx_degree_remove(all: Seq<Interaction>, s: Seq<usize>, q: u32, i: int)
    requires
        0 <= i < s.len(),
    ensures
        idx_degree(all, s, q, s.len() as int)
            == idx_degree(all, s.remove(i), q, s.len() - 1) + touches(qubit_pair(all[s[i] as int]), q),
    decreases s.len(),
{
    if i == s.len() - 1 {
        assert(s.remove(i) =~= s.drop_last());
        lemma_idx_degree_prefix(all, s, s.drop_last(), q, s.len() - 1);
    } else {
        let t = s.drop_last();
        lemma_idx_degree_remove(all, t, q, i);
        lemma_idx_degree_prefix(all, s, t, q, s.len() - 1);
        assert(s.remove(i) =~= t.remove(i).push(s.last()));
        lemma_idx_degree_prefix(all, s.remove(i), t.remove(i), q, s.len() - 2);
    }
}

proof fn lemma_idx_degree_prefix(all: Seq<Interaction>, s: Seq<usize>, t: Seq<usize>, q: u32, m: int)
    requires
        0 <= m <= t.len(),
        m <= s.len(),
        forall|e: int| 0 <= e < m ==> s[e] == t[e],
    ensures
        idx_degree(all, s, q, m) == idx_degree(all, t, q, m),
    decreases m,
{
    if m > 0 {
        lemma_idx_degree_prefix(all, s, t, q, m - 1);
    }
}

/// Degrees do not depend on the order of the interactions.
proof fn lemma_idx_degree_perm(all: Seq<Interaction>, s1: Seq<usize>, s2: Seq<usize>, q: u32)
    requires
        s1.to_multiset() =~= s2.to_multiset(),
    ensures
        idx_degree(all, s1, q, s1.len() as int) == idx_degree(all, s2, q, s2.len() as int),
    decreases s1.len(),
{
    s1.to_multiset_ensures();
    s2.to_multiset_ensures();
    if s1.len() > 0 {
        let x = s1.last();
        let r1 = s1.drop_last();
        assert(s1 =~= r1.push(x));
        r1.to_multiset_ensures();
        assert(s2.to_multiset().count(x) > 0);
        assert(s2.contains(x));
        let i = choose|i: int| 0 <= i < s2.len() && s2[i] == x;
        let r2 = s2.remove(i);
        assert(r2.to_multiset() =~= s2.to_multiset().remove(x));
        assert(r1.to_multiset() =~= s1.to_multiset().remove(x));
        lemma_idx_degree_perm(all, r1, r2, q);
        lemma_idx_degree_remove(all, s2, q, i);
        lemma_idx_degree_prefix(all, s1, r1, q, s1.len() - 1);
    }
}

/// Δ of the rank graph that Misra–Gries coloured is Δ of the group's qubit
/// graph.
proof fn lemma_group_delta(all: Seq<Interaction>, group: Seq<usize>, ps: Seq<((u32, u32), usize)>, vertices: Seq<u32>,
    edges: Seq<(usize, usize, InteractionId)>, delta: int)
    requires
        edges.len() == ps.len(),
        strictly_increasing(vertices),
        pair_indices(ps).to_multiset() =~= group.to_multiset(),
        forall|w: int| 0 <= w < ps.len() ==> ps[w].0 == qubit_pair(all[(#[trigger] ps[w]).1 as int]),
        forall|p: int| 0 <= p < ps.len() ==> vertices.contains((#[trigger] ps[p]).0.0) && vertices.contains(ps[p].0.1),
        forall|e: int| 0 <= e < edges.len() ==> (#[trigger] edges[e]).0 < vertices.len() && edges[e].1 < vertices.len(),
        forall|e: int| 0 <= e < edges.len() ==> vertices[(#[trigger] edges[e]).0 as int] == ps[e].0.0
            && vertices[edges[e].1 as int] == ps[e].0.1,
        edges.len() > 0 ==> delta == max_degree(edges, vertices.len() as int),
        edges.len() == 0 ==> delta == 0,
    ensures
        is_group_delta(all, group, delta),
{
    let m = edges.len() as int;
    let n = vertices.len() as int;
    pair_indices(ps).to_multiset_ensures();
    group.to_multiset_ensures();
    assert(group.len() == ps.len());
    let degs = Seq::new(n as nat, |v: int| degree_of(edges, v, m));
    assert forall|q: u32| #[trigger] idx_degree(all, group, q, group.len() as int)
        == pairs_degree(ps, q, m) by {
        lemma_idx_degree_perm(all, pair_indices(ps), group, q);
        lemma_pairs_degree_idx(all, ps, q, m);
    }
    if m > 0 {
        assert forall|i: int| 0 <= i < degs.len() implies #[trigger] degs[i] >= 0 by {
            lemma_degree_bound(edges, i, m);
        }
        lemma_seq_max_props(degs);
        assert forall|q: u32| #[trigger] idx_degree(all, group, q, group.len() as int) <= delta by {
            if vertices.contains(q) {
                let v = choose|v: int| 0 <= v < vertices.len() && vertices[v] == q;
                lemma_rank_degree(edges, ps, vertices, v, m);
                assert(degs[v] <= delta);
            } else {
                assert forall|e: int| 0 <= e < ps.len() implies (#[trigger] ps[e]).0.0 != q && ps[e].0.1 != q by {
                    assert(vertices.contains(ps[e].0.0) && vertices.contains(ps[e].0.1));
                }
                lemma_pairs_degree_absent(ps, q, m);
            }
        }
        assert(edges[0].0 < vertices.len());
        let v = choose|v: int| 0 <= v < degs.len() && degs[v] == crate::exact::seq_max(degs);
        lemma_rank_degree(edges, ps, vertices, v, m);
        assert(idx_degree(all, group, vertices[v], group.len() as int) == delta);
    }
}

/// Inserting an entry at its place keeps the pair list strictly sorted.
proof fn lemma_sorted_insert(old_pairs: Seq<((u32, u32), usize)>, pos: int, entry: ((u32, u32), usize))
    requires
        0 <= pos <= old_pairs.len(),
        forall|p: int, q: int| 0 <= p < q < old_pairs.len()
    ==> crate::graph::pair_lt_u32(#[trigger] old_pairs[p].0, #[trigger] old_pairs[q].0),
        forall|p: int| 0 <= p < pos ==> crate::graph::pair_lt_u32(#[trigger] old_pairs[p].0, entry.0),
        pos < old_pairs.len() ==> !crate::graph::pair_lt_u32(old_pairs[pos].0, entry.0) && old_pairs[pos].0 != entry.0,
    ensures
        ({
    let pairs = old_pairs.insert(pos, entry);
    forall|p: int, q: int| 0 <= p < q < pairs.len()
        ==> crate::graph::pair_lt_u32(#[trigger] pairs[p].0, #[trigger] pairs[q].0)
        }),
{
    let pairs = old_pairs.insert(pos, entry);
    let key = entry.0;
    assert forall|p: int, q: int| 0 <= p < q < pairs.len() implies crate::graph::pair_lt_u32(#[trigger] pairs[p].0, #[trigger] pairs[q].0) by {
        if q < pos {
            assert(pairs[p] == old_pairs[p] && pairs[q] == old_pairs[q]);
        } else if q == pos {
            assert(pairs[p] == old_pairs[p]);
        } else if p < pos {
            assert(pairs[p] == old_pairs[p] && pairs[q] == old_pairs[q - 1]);
            assert(crate::graph::pair_lt_u32(old_pairs[pos].0, old_pairs[q - 1].0) || pos == q - 1);
        } else if p == pos {
            assert(pairs[q] == old_pairs[q - 1]);
            assert(pos < old_pairs.len());
            assert(!crate::graph::pair_lt_u32(old_pairs[pos].0, key));
            assert(old_pairs[pos].0 != key);
            assert(crate::graph::pair_lt_u32(old_pairs[pos].0, old_pairs[q - 1].0) || pos == q - 1);
        } else {
            assert(pairs[p] == old_pairs[p - 1] && pairs[q] == old_pairs[q - 1]);
        }
    }
}

/// `edges` is the qubit graph of the group with its qubits relabelled
/// `0..n` in increasing order: edge `e` joins the ranks of the qubit pair of
/// member `idx[e]` and carries its id, `idx` listing each member once.
pub open spec fn rank_graph_of(all: Seq<Interaction>, group: Seq<usize>, n: int,
    edges: Seq<(usize, usize, InteractionId)>) -> bool {
    exists|vertices: Seq<u32>, idx: Seq<usize>| {
        &&& #[trigger] strictly_increasing(vertices)
        &&& vertices.len() == n
        &&& #[trigger] idx.to_multiset() =~= group.to_multiset()
        &&& idx.len() == edges.len()
        &&& forall|e: int| 0 <= e < edges.len() ==> (#[trigger] edges[e]).0 < n && edges[e].1 < n
            && (vertices[edges[e].0 as int], vertices[edges[e].1 as int]) == qubit_pair(all[idx[e] as int])
            && edges[e].2 == all[idx[e] as int].id
    }
}

/// Misra–Gries fails on the graph: for some adjacency lists and colouring
/// order of its edges, a step finds nothing or the result is not proper.
pub open spec fn mg_fails_on(edges: Seq<(usize, usize, InteractionId)>, n: int) -> bool {
    exists|adj: Seq<Vec<(usize, usize)>>, order: Seq<usize>|
        #[trigger] adjacency_of(edges, n, adj, edges.len() as int) && #[trigger] edge_order(order, edges.len() as int)
        && mg_colouring(edges, n, adj, order, max_degree(edges, n)) is None
}

/// The first `g` members of a commutation group act on two qubits each,
/// no two on the same pair.
pub open spec fn simple_prefix(all: Seq<Interaction>, group: Seq<usize>, g: int) -> bool {
    &&& forall|j: int| 0 <= j < g ==> all[#[trigger] group[j] as int].qubits@.len() == 2
    &&& forall|i: int, j: int| 0 <= i < j < g
        ==> qubit_pair(all[#[trigger] group[i] as int]) != qubit_pair(all[#[trigger] group[j] as int])
}

/// Group the interactions `group` (indices into `all`) of a commutation
/// segment into Misra–Gries colour classes: classes in colour order, each
/// sorted by interaction id, and Δ of the qubit graph. Every interaction must
/// act on two qubits, and no two on the same pair.
#[verifier::rlimit(100)]
pub fn color_commutation_group(all: &Vec<Interaction>, group: &Vec<usize>) -> (r: Result<(Vec<Vec<usize>>, u32), EntanglingScheduleError>)
    requires
        forall|j: int| 0 <= j < group@.len() ==> #[trigger] group@[j] < all@.len(),
        2 * group@.len() < u32::MAX,
    ensures
        r matches Err(EntanglingScheduleError::MultiQubitCommutation(id)) ==> exists|j: int| 0 <= j < group@.len()
            && all@[#[trigger] group@[j] as int].id == id && all@[group@[j] as int].qubits@.len() != 2,
        r matches Err(EntanglingScheduleError::DuplicatePair(a, b)) ==> exists|i: int, j: int| 0 <= i < j < group@.len()
            && all@[#[trigger] group@[i] as int].qubits@.len() == 2 && all@[#[trigger] group@[j] as int].qubits@.len() == 2
            && qubit_pair(all@[group@[i] as int]) == (a.0, b.0) && qubit_pair(all@[group@[j] as int]) == (a.0, b.0),
        r is Err ==> (r->Err_0 is MultiQubitCommutation || r->Err_0 is DuplicatePair || r->Err_0 is ColouringIncomplete),
        r matches Ok((classes, delta)) ==> forall|j: int| 0 <= j < group@.len() ==> all@[#[trigger] group@[j] as int].qubits@.len() == 2,
        r matches Ok((classes, delta)) ==> forall|c: int| 0 <= c < classes@.len() ==> (#[trigger] classes@[c])@.len() > 0
            && forall|t: int| 0 <= t < classes@[c]@.len() ==> #[trigger] classes@[c]@[t] < all@.len(),
        r matches Ok((classes, delta)) ==> flat(views(classes@)).to_multiset() =~= group@.to_multiset(),
        r matches Ok((classes, delta)) ==> forall|c: int| 0 <= c < classes@.len() ==> matching_class(all@, #[trigger] classes@[c]@),
        r matches Ok((classes, delta)) ==> classes@.len() <= delta + 1,
        r == Err::<(Vec<Vec<usize>>, u32), EntanglingScheduleError>(EntanglingScheduleError::ColouringIncomplete)
            ==> simple_prefix(all@, group@, group@.len() as int) && exists|n: int, edges: Seq<(usize, usize, InteractionId)>|
                #[trigger] rank_graph_of(all@, group@, n, edges) && mg_fails_on(edges, n),
        r matches Ok((classes, delta)) ==> is_group_delta(all@, group@, delta as int),
        (r matches Err(e) && (e is MultiQubitCommutation || e is DuplicatePair))
            <==> !simple_prefix(all@, group@, group@.len() as int),
        forall|g: int| 0 <= g < group@.len() && simple_prefix(all@, group@, g)
            && all@[#[trigger] group@[g] as int].qubits@.len() != 2
            ==> r == Err::<(Vec<Vec<usize>>, u32), EntanglingScheduleError>(
                EntanglingScheduleError::MultiQubitCommutation(all@[group@[g] as int].id)),
{
    // Pairs in increasing order, each with its interaction.
    let mut pairs: Vec<((u32, u32), usize)> = Vec::new();
    proof {
        assert(pair_indices(pairs@) =~= group@.take(0));
    }
    let mut vertices: Vec<u32> = Vec::new();
    let mut g: usize = 0;
    while g < group.len()
        invariant
            g <= group@.len(),
            forall|j: int| 0 <= j < group@.len() ==> #[trigger] group@[j] < all@.len(),
            forall|j: int| 0 <= j < g ==> all@[#[trigger] group@[j] as int].qubits@.len() == 2,
            pairs@.len() <= g,
            strictly_increasing(vertices@),
            forall|p: int| 0 <= p < pairs@.len() ==> #[trigger] pairs@[p].1 < all@.len()
                && vertices@.contains(pairs@[p].0.0) && vertices@.contains(pairs@[p].0.1),
            forall|p: int, q: int| 0 <= p < q < pairs@.len() ==> crate::graph::pair_lt_u32(#[trigger] pairs@[p].0, #[trigger] pairs@[q].0),
            forall|p: int| 0 <= p < pairs@.len() ==> pair_from_group(all@, group@, g as int, #[trigger] pairs@[p]),
            pair_indices(pairs@).to_multiset() =~= group@.take(g as int).to_multiset(),
            simple_prefix(all@, group@, g as int),
        decreases group.len() - g,
    {
        let it = &all[group[g]];
        if it.qubits.len() != 2 {
            proof {
                assert forall|g2: int| 0 <= g2 < group@.len() && simple_prefix(all@, group@, g2)
                    && all@[#[trigger] group@[g2] as int].qubits@.len() != 2 implies g2 == g by {
                    if g2 < g {
                        assert(all@[group@[g2] as int].qubits@.len() == 2);
                    } else if g2 > g {
                        assert(all@[group@[g as int] as int].qubits@.len() == 2);
                    }
                }
            }
            return Err(EntanglingScheduleError::MultiQubitCommutation(it.id));
        }
        let a = it.qubits[0].0;
        let b = it.qubits[1].0;
        let ghost old_vertices = vertices@;
        insert_vertex(&mut vertices, a);
        insert_vertex(&mut vertices, b);
        let key = if a < b { (a, b) } else { (b, a) };
        let mut pos: usize = 0;
        while pos < pairs.len() && key_lt(pairs[pos].0, key)
            invariant
                pos <= pairs@.len(),
                forall|p: int| 0 <= p < pos ==> crate::graph::pair_lt_u32(#[trigger] pairs@[p].0, key),
            decreases pairs.len() - pos,
        {
            pos += 1;
        }
        if pos < pairs.len() && pairs[pos].0.0 == key.0 && pairs[pos].0.1 == key.1 {
            proof {
                assert(pair_from_group(all@, group@, g as int, pairs@[pos as int]));
                let j = choose|j: int| 0 <= j < g && #[trigger] group@[j] == pairs@[pos as int].1
                    && qubit_pair(all@[group@[j] as int]) == pairs@[pos as int].0;
                assert(group@[g as int] == group@[g as int]);
                assert(qubit_pair(all@[group@[g as int] as int]) == key);
                assert(!simple_prefix(all@, group@, group@.len() as int)) by {
                    assert(qubit_pair(all@[group@[j] as int]) == qubit_pair(all@[group@[g as int] as int]));
                }
                assert forall|g2: int| 0 <= g2 < group@.len() && simple_prefix(all@, group@, g2)
                    && all@[#[trigger] group@[g2] as int].qubits@.len() != 2 implies false by {
                    if g2 < g {
                        assert(all@[group@[g2] as int].qubits@.len() == 2);
                    } else if g2 == g {
                    } else {
                        assert(qubit_pair(all@[group@[j] as int]) == qubit_pair(all@[group@[g as int] as int]));
                    }
                }
            }
            return Err(EntanglingScheduleError::DuplicatePair(LogicalQubitId(key.0), LogicalQubitId(key.1)));
        }
        let ghost old_pairs = pairs@;
        pairs.insert(pos, (key, group[g]));
        proof {
            assert(pair_indices(pairs@) =~= pair_indices(old_pairs).insert(pos as int, group@[g as int]));
            lemma_insert_multiset(pair_indices(old_pairs), pos as int, group@[g as int]);
            assert(group@.take(g + 1) =~= group@.take(g as int).push(group@[g as int]));
            group@.take(g as int).to_multiset_ensures();
            assert forall|p: int| 0 <= p < pairs@.len() implies #[trigger] pairs@[p].1 < all@.len()
                && vertices@.contains(pairs@[p].0.0) && vertices@.contains(pairs@[p].0.1) by {
                if p < pos {
                    assert(pairs@[p] == old_pairs[p]);
                } else if p > pos {
                    assert(pairs@[p] == old_pairs[p - 1]);
                }
            }
            lemma_sorted_insert(old_pairs, pos as int, (key, group@[g as int]));
            assert forall|p: int| 0 <= p < pairs@.len() implies pair_from_group(all@, group@, g + 1, #[trigger] pairs@[p]) by {
                if p == pos {
                    assert(group@[g as int] == pairs@[p].1);
                } else {
                    let src = if p < pos { p } else { p - 1 };
                    assert(pairs@[p] == old_pairs[src]);
                    assert(pair_from_group(all@, group@, g as int, old_pairs[src]));
                    let j = choose|j: int| 0 <= j < g && #[trigger] group@[j] == old_pairs[src].1
                        && qubit_pair(all@[group@[j] as int]) == old_pairs[src].0;
                    assert(group@[j] == pairs@[p].1);
                }
            }
        }
        proof {
            lemma_simple_step(all@, group@, g as int, old_pairs, pairs@, pos as int, key);
        }
        g += 1;
    }
    // Edges between vertex ranks, in pair order.
    let n = vertices.len();
    let mut edges: Vec<(usize, usize, InteractionId)> = Vec::new();
    let mut p: usize = 0;
    while p < pairs.len()
        invariant
            p <= pairs@.len(),
            n == vertices@.len(),
            edges@.len() == p,
            forall|q: int| 0 <= q < pairs@.len() ==> #[trigger] pairs@[q].1 < all@.len()
                && vertices@.contains(pairs@[q].0.0) && vertices@.contains(pairs@[q].0.1),
            forall|e: int| 0 <= e < p ==> (#[trigger] edges@[e]).0 < n && edges@[e].1 < n,
            forall|e: int| 0 <= e < p ==> vertices@[(#[trigger] edges@[e]).0 as int] == pairs@[e].0.0
                && vertices@[edges@[e].1 as int] == pairs@[e].0.1,
            forall|e: int| 0 <= e < p ==> (#[trigger] edges@[e]).2 == all@[pairs@[e].1 as int].id,
        decreases pairs.len() - p,
    {
        let ((a, b), i) = pairs[p];
        let ra = rank_of(&vertices, a);
        let rb = rank_of(&vertices, b);
        edges.push((ra, rb, all[i].id));
        p += 1;
    }
    let (colors, delta) = match misra_gries_color(n, &edges) {
        Some(res) => res,
        None => {
            proof {
                assert(group@.take(group@.len() as int) =~= group@);
                assert forall|w: int| 0 <= w < pairs@.len() implies pairs@[w].0 == qubit_pair(all@[(#[trigger] pairs@[w]).1 as int]) by {
                    assert(pair_from_group(all@, group@, group@.len() as int, pairs@[w]));
                }
                let vs = vertices@;
                let ix = pair_indices(pairs@);
                assert(strictly_increasing(vs));
                assert(ix.to_multiset() =~= group@.to_multiset());
                assert forall|e: int| 0 <= e < edges@.len() implies (#[trigger] edges@[e]).0 < n && edges@[e].1 < n
                    && (vs[edges@[e].0 as int], vs[edges@[e].1 as int]) == qubit_pair(all@[ix[e] as int])
                    && edges@[e].2 == all@[ix[e] as int].id by {
                    assert(ix[e] == pairs@[e].1);
                }
                assert(rank_graph_of(all@, group@, n as int, edges@));
                assert(mg_fails_on(edges@, n as int));
            }
            return Err(EntanglingScheduleError::ColouringIncomplete);
        },
    };
    proof {
        assert(group@.take(group@.len() as int) =~= group@);
        assert forall|w: int| 0 <= w < pairs@.len() implies pairs@[w].0 == qubit_pair(all@[(#[trigger] pairs@[w]).1 as int]) by {
            assert(pair_from_group(all@, group@, group@.len() as int, pairs@[w]));
        }
        lemma_group_delta(all@, group@, pairs@, vertices@, edges@, delta as int);
    }
    // Colour classes in colour order, each sorted by interaction id.
    let ghost idx = pair_indices(pairs@);
    proof {
        assert(group@.take(group@.len() as int) =~= group@);
        assert forall|q: int| 0 <= q < colors@.len() implies #[trigger] colors@[q] < delta + 1 by {}
        lemma_coloured_below_all(idx, colors@, delta + 1, colors@.len() as int);
        assert(idx.take(colors@.len() as int) =~= idx);
        assert(flat(views(Seq::<Vec<usize>>::empty())) =~= Seq::<usize>::empty());
        lemma_coloured_below_zero(idx, colors@, colors@.len() as int);
        assert forall|w: int| 0 <= w < pairs@.len() implies pairs@[w].0 == qubit_pair(all@[(#[trigger] pairs@[w]).1 as int]) by {
            assert(pair_from_group(all@, group@, group@.len() as int, pairs@[w]));
        }
    }
    let mut classes: Vec<Vec<usize>> = Vec::new();
    let mut c: u64 = 0;
    while c <= delta as u64
        invariant
            colors@.len() == pairs@.len(),
            idx == pair_indices(pairs@),
            c <= delta as u64 + 1,
            classes@.len() <= c,
            forall|q: int| 0 <= q < pairs@.len() ==> #[trigger] pairs@[q].1 < all@.len(),
            forall|x: int| 0 <= x < classes@.len() ==> (#[trigger] classes@[x])@.len() > 0
                && forall|t: int| 0 <= t < classes@[x]@.len() ==> #[trigger] classes@[x]@[t] < all@.len(),
            forall|x: int| 0 <= x < classes@.len() ==> matching_class(all@, #[trigger] classes@[x]@),
            flat(views(classes@)).to_multiset() =~= coloured_below(idx, colors@, c as int, colors@.len() as int),
            proper_edge_colouring(edge_ends(edges@), colors@, delta + 1),
            edges@.len() == pairs@.len(),
            strictly_increasing(vertices@),
            forall|e: int| 0 <= e < edges@.len() ==> (#[trigger] edges@[e]).0 < vertices@.len() && edges@[e].1 < vertices@.len(),
            forall|e: int| 0 <= e < edges@.len() ==> vertices@[(#[trigger] edges@[e]).0 as int] == pairs@[e].0.0
                && vertices@[edges@[e].1 as int] == pairs@[e].0.1,
            forall|w: int| 0 <= w < pairs@.len() ==> pairs@[w].0 == qubit_pair(all@[(#[trigger] pairs@[w]).1 as int]),
        decreases delta as u64 + 1 - c,
    {
        let mut class: Vec<usize> = Vec::new();
        let ghost mut src: Seq<int> = Seq::empty();
        let mut q: usize = 0;
        while q < colors.len()
            invariant
                colors@.len() == pairs@.len(),
                idx == pair_indices(pairs@),
                q <= colors@.len(),
                forall|w: int| 0 <= w < pairs@.len() ==> #[trigger] pairs@[w].1 < all@.len(),
                forall|t: int| 0 <= t < class@.len() ==> #[trigger] class@[t] < all@.len(),
                class@.to_multiset() =~= coloured_exactly(idx, colors@, c as int, q as int),
                src.len() == class@.len(),
                forall|t: int| 0 <= t < src.len() ==> 0 <= #[trigger] src[t] < q && colors@[src[t]] == c
                    && class@[t] == pairs@[src[t]].1,
                forall|t1: int, t2: int| 0 <= t1 < src.len() && 0 <= t2 < src.len() && t1 != t2 ==> #[trigger] src[t1] != #[trigger] src[t2],
                forall|t1: int, t2: int| 0 <= t1 < t2 < class@.len() ==> all@[#[trigger] class@[t1] as int].id.0 <= all@[#[trigger] class@[t2] as int].id.0,
            decreases colors.len() - q,
        {
            if colors[q] as u64 == c {
                let i = pairs[q].1;
                let mut pos: usize = class.len();
                while pos > 0 && all[i].id.0 < all[class[pos - 1]].id.0
                    invariant
                        pos <= class@.len(),
                        i < all@.len(),
                        forall|t: int| 0 <= t < class@.len() ==> #[trigger] class@[t] < all@.len(),
                        forall|t: int| pos <= t < class@.len() ==> all@[i as int].id.0 < all@[#[trigger] class@[t] as int].id.0,
                    decreases pos,
                {
                    pos -= 1;
                }
                let ghost prev = class@;
                let ghost prev_src = src;
                class.insert(pos, i);
                proof {
                    src = prev_src.insert(pos as int, q as int);
                    lemma_insert_multiset(prev, pos as int, i);
                    assert(idx[q as int] == i);
                    assert forall|t: int| 0 <= t < src.len() implies 0 <= #[trigger] src[t] < q + 1 && colors@[src[t]] == c
                        && class@[t] == pairs@[src[t]].1 by {
                        if t < pos {
                            assert(src[t] == prev_src[t] && class@[t] == prev[t]);
                        } else if t > pos {
                            assert(src[t] == prev_src[t - 1] && class@[t] == prev[t - 1]);
                        }
                    }
                    assert forall|t1: int, t2: int| 0 <= t1 < src.len() && 0 <= t2 < src.len() && t1 != t2
                        implies #[trigger] src[t1] != #[trigger] src[t2] by {
                        let a1 = if t1 < pos { t1 } else { t1 - 1 };
                        let a2 = if t2 < pos { t2 } else { t2 - 1 };
                        if t1 != pos && t2 != pos {
                            assert(src[t1] == prev_src[a1] && src[t2] == prev_src[a2]);
                        } else if t1 == pos {
                            assert(src[t2] == prev_src[a2]);
                        } else {
                            assert(src[t1] == prev_src[a1]);
                        }
                    }
                    assert forall|t1: int, t2: int| 0 <= t1 < t2 < class@.len()
                        implies all@[#[trigger] class@[t1] as int].id.0 <= all@[#[trigger] class@[t2] as int].id.0 by {
                        if t2 < pos {
                            assert(class@[t1] == prev[t1] && class@[t2] == prev[t2]);
                        } else if t2 == pos {
                            assert(class@[t1] == prev[t1]);
                            if pos > 0 {
                                assert(!(all@[i as int].id.0 < all@[prev[pos - 1] as int].id.0));
                                if t1 < pos - 1 {
                                    assert(all@[prev[t1] as int].id.0 <= all@[prev[pos - 1] as int].id.0);
                                }
                            }
                        } else if t1 < pos {
                            assert(class@[t1] == prev[t1] && class@[t2] == prev[t2 - 1]);
                            if t1 < pos {
                                if pos < prev.len() {
                                    assert(all@[i as int].id.0 < all@[prev[pos as int] as int].id.0);
                                }
                            }
                        } else if t1 == pos {
                            assert(class@[t2] == prev[t2 - 1]);
                        } else {
                            assert(class@[t1] == prev[t1 - 1] && class@[t2] == prev[t2 - 1]);
                        }
                    }
                }
            }
            q += 1;
        }
        proof {
            assert forall|t1: int, t2: int| 0 <= t1 < class@.len() && 0 <= t2 < class@.len() && t1 != t2
                implies pairs_disjoint(qubit_pair(all@[#[trigger] class@[t1] as int]), qubit_pair(all@[#[trigger] class@[t2] as int])) by {
                let q1 = src[t1];
                let q2 = src[t2];
                assert(q1 != q2);
                assert(colors@[q1] == colors@[q2]);
                let ends = edge_ends(edges@);
                if q1 < q2 {
                    assert(!share_endpoint(ends[q1], ends[q2]));
                } else {
                    assert(!share_endpoint(ends[q2], ends[q1]));
                }
                assert(ends[q1] == (edges@[q1].0, edges@[q1].1));
                assert(ends[q2] == (edges@[q2].0, edges@[q2].1));
                assert(pairs@[q1].0 == qubit_pair(all@[pairs@[q1].1 as int]));
                assert(pairs@[q2].0 == qubit_pair(all@[pairs@[q2].1 as int]));
                let (u1, u2) = (edges@[q1].0 as int, edges@[q1].1 as int);
                let (v1, v2) = (edges@[q2].0 as int, edges@[q2].1 as int);
                assert(u1 != v1 && u1 != v2 && u2 != v1 && u2 != v2);
                assert(vertices@[u1] != vertices@[v1] && vertices@[u1] != vertices@[v2]
                    && vertices@[u2] != vertices@[v1] && vertices@[u2] != vertices@[v2]) by {
                    assert forall|x: int, y: int| 0 <= x < vertices@.len() && 0 <= y < vertices@.len() && x != y
                        implies vertices@[x] != vertices@[y] by {
                        if x < y {
                            assert(vertices@[x] < vertices@[y]);
                        } else {
                            assert(vertices@[y] < vertices@[x]);
                        }
                    }
                }
            }
        }
        let ghost before = classes@;
        proof {
            assert(matching_class(all@, class@));
        }
        if class.len() > 0 {
            classes.push(class);
            proof {
                assert(views(classes@) =~= views(before).push(classes@.last()@));
                lemma_flat_push(views(before), classes@.last()@);
                vstd::seq_lib::lemma_multiset_commutative(flat(views(before)), classes@.last()@);
            }
        } else {
            proof {
                assert(class@ =~= Seq::<usize>::empty());
            }
        }
        proof {
            lemma_coloured_split(idx, colors@, c as int, colors@.len() as int);
        }
        c += 1;
    }
    Ok((classes, delta))
}

/// Interaction `i` comes before `j` in (ASAP layer, id) order.
pub open spec fn layer_id_le(i: Interaction, j: Interaction) -> bool {
    i.dag_layer < j.dag_layer || (i.dag_layer == j.dag_layer && i.id.0 <= j.id.0)
}

/// The lists of a list of index lists, as sequences.
pub open spec fn views(b: Seq<Vec<usize>>) -> Seq<Seq<usize>> {
    b.map_values(|v: Vec<usize>| v@)
}

/// The concatenation of a list of index lists.
pub open spec fn flat(b: Seq<Seq<usize>>) -> Seq<usize>
    decreases b.len(),
{
    if b.len() == 0 {
        seq![]
    } else {
        flat(b.drop_last()) + b.last()
    }
}

proof fn lemma_flat_push(b: Seq<Seq<usize>>, x: Seq<usize>)
    ensures
        flat(b.push(x)) == flat(b) + x,
{
    assert(b.push(x).drop_last() =~= b);
}

proof fn lemma_flat_push_last(b: Seq<Seq<usize>>, i: usize)
    requires
        b.len() > 0,
    ensures
        flat(b.update(b.len() - 1, b.last().push(i))) == flat(b).push(i),
{
    let b2 = b.update(b.len() - 1, b.last().push(i));
    assert(b2.drop_last() =~= b.drop_last());
    assert(flat(b) + seq![i] =~= flat(b).push(i));
    assert(flat(b.drop_last()) + b.last().push(i) =~= flat(b.drop_last()) + b.last() + seq![i]);
}

/// Inserting into a sequence inserts into its multiset.
proof fn lemma_insert_multiset(s: Seq<usize>, i: int, x: usize)
    requires
        0 <= i <= s.len(),
    ensures
        s.insert(i, x).to_multiset() =~= s.to_multiset().insert(x),
{
    broadcast use vstd::multiset::group_multiset_axioms;
    let a = s.subrange(0, i);
    let b = s.subrange(i, s.len() as int);
    assert(s =~= a + b);
    assert(s.insert(i, x) =~= a.push(x) + b);
    vstd::seq_lib::lemma_multiset_commutative(a, b);
    vstd::seq_lib::lemma_multiset_commutative(a.push(x), b);
    a.to_multiset_ensures();
}

/// Bucket the interactions `group` (indices into `all`) of a dependency-DAG
/// segment by their ASAP layer: buckets in increasing layer order, each
/// sorted by interaction id (ties in segment order).
#[verifier::rlimit(40)]
pub fn asap_buckets(all: &Vec<Interaction>, group: &Vec<usize>) -> (buckets: Vec<Vec<usize>>)
    requires
        forall|j: int| 0 <= j < group@.len() ==> #[trigger] group@[j] < all@.len(),
    ensures
        forall|b: int| 0 <= b < buckets@.len() ==> (#[trigger] buckets@[b])@.len() > 0
            && forall|t: int| 0 <= t < buckets@[b]@.len() ==> #[trigger] buckets@[b]@[t] < all@.len(),
        forall|b: int, t: int| 0 <= b < buckets@.len() && 0 <= t < buckets@[b]@.len()
            ==> all@[#[trigger] buckets@[b]@[t] as int].dag_layer == all@[buckets@[b]@[0] as int].dag_layer,
        forall|b: int, t: int, u: int| 0 <= b < buckets@.len() && 0 <= t < u < buckets@[b]@.len()
            ==> all@[#[trigger] buckets@[b]@[t] as int].id.0 <= all@[#[trigger] buckets@[b]@[u] as int].id.0,
        forall|b: int, c: int| 0 <= b < c < buckets@.len()
            ==> all@[(#[trigger] buckets@[b])@[0] as int].dag_layer < all@[(#[trigger] buckets@[c])@[0] as int].dag_layer,
        flat(views(buckets@)).to_multiset() =~= group@.to_multiset(),
{
    // Stable insertion sort by (layer, id).
    let mut order: Vec<usize> = Vec::new();
    proof {
        assert(order@ =~= group@.take(0));
    }
    let mut g: usize = 0;
    while g < group.len()
        invariant
            g <= group@.len(),
            forall|j: int| 0 <= j < group@.len() ==> #[trigger] group@[j] < all@.len(),
            forall|j: int| 0 <= j < order@.len() ==> #[trigger] order@[j] < all@.len(),
            forall|a: int, b: int| 0 <= a < b < order@.len() ==> layer_id_le(all@[#[trigger] order@[a] as int], all@[#[trigger] order@[b] as int]),
            order@.to_multiset() =~= group@.take(g as int).to_multiset(),
        decreases group.len() - g,
    {
        let i = group[g];
        let mut pos: usize = order.len();
        while pos > 0 && (all[i].dag_layer < all[order[pos - 1]].dag_layer
            || (all[i].dag_layer == all[order[pos - 1]].dag_layer && all[i].id.0 < all[order[pos - 1]].id.0))
            invariant
                pos <= order@.len(),
                i < all@.len(),
                forall|j: int| 0 <= j < order@.len() ==> #[trigger] order@[j] < all@.len(),
                forall|j: int| pos <= j < order@.len() ==> !layer_id_le(all@[#[trigger] order@[j] as int], all@[i as int]),
            decreases pos,
        {
            pos -= 1;
        }
        let ghost prev = order@;
        order.insert(pos, i);
        proof {
            lemma_insert_multiset(prev, pos as int, i);
            assert(group@.take(g + 1) =~= group@.take(g as int).push(i));
            group@.take(g as int).to_multiset_ensures();
            assert forall|a: int, b: int| 0 <= a < b < order@.len() implies layer_id_le(all@[#[trigger] order@[a] as int], all@[#[trigger] order@[b] as int]) by {
                if b < pos {
                    assert(order@[a] == prev[a] && order@[b] == prev[b]);
                } else if b == pos {
                    assert(order@[a] == prev[a]);
                    if a < pos - 1 {
                        assert(layer_id_le(all@[prev[a] as int], all@[prev[pos - 1] as int]));
                    }
                } else if a < pos {
                    assert(order@[a] == prev[a] && order@[b] == prev[b - 1]);
                } else if a == pos {
                    assert(order@[b] == prev[b - 1]);
                } else {
                    assert(order@[a] == prev[a - 1] && order@[b] == prev[b - 1]);
                }
            }
        }
        g += 1;
    }
    proof {
        assert(group@.take(group@.len() as int) =~= group@);
        assert(flat(views(Seq::<Vec<usize>>::empty())) =~= order@.take(0));
    }
    let mut buckets: Vec<Vec<usize>> = Vec::new();
    let mut t: usize = 0;
    while t < order.len()
        invariant
            flat(views(buckets@)) == order@.take(t as int),
            forall|j: int| 0 <= j < order@.len() ==> #[trigger] order@[j] < all@.len(),
            forall|a: int, b: int| 0 <= a < b < order@.len() ==> layer_id_le(all@[#[trigger] order@[a] as int], all@[#[trigger] order@[b] as int]),
            t <= order@.len(),
            forall|b: int| 0 <= b < buckets@.len() ==> (#[trigger] buckets@[b])@.len() > 0
                && forall|x: int| 0 <= x < buckets@[b]@.len() ==> #[trigger] buckets@[b]@[x] < all@.len(),
            forall|b: int, x: int| 0 <= b < buckets@.len() && 0 <= x < buckets@[b]@.len()
                ==> all@[#[trigger] buckets@[b]@[x] as int].dag_layer == all@[buckets@[b]@[0] as int].dag_layer,
            forall|b: int, x: int, y: int| 0 <= b < buckets@.len() && 0 <= x < y < buckets@[b]@.len()
                ==> all@[#[trigger] buckets@[b]@[x] as int].id.0 <= all@[#[trigger] buckets@[b]@[y] as int].id.0,
            forall|b: int, c: int| 0 <= b < c < buckets@.len()
                ==> all@[(#[trigger] buckets@[b])@[0] as int].dag_layer < all@[(#[trigger] buckets@[c])@[0] as int].dag_layer,
            // Every bucket entry is an already visited position of `order`.
            forall|b: int, x: int| 0 <= b < buckets@.len() && 0 <= x < buckets@[b]@.len()
                ==> exists|j: int| 0 <= j < t && order@[j] == #[trigger] buckets@[b]@[x],
            t > 0 ==> buckets@.len() > 0 && buckets@.last()@.last() == order@[t - 1],
            t == 0 ==> buckets@.len() == 0,
        decreases order.len() - t,
    {
        let i = order[t];
        let n_b = buckets.len();
        let ghost prev = buckets@;
        if n_b > 0 && all[buckets[n_b - 1][0]].dag_layer == all[i].dag_layer {
            let ghost last = buckets@[n_b - 1]@;
            {
                let last_bucket = &mut buckets[n_b - 1];
                last_bucket.push(i);
            }
            proof {
                assert(views(buckets@) =~= views(prev).update(n_b - 1, views(prev).last().push(i)));
                lemma_flat_push_last(views(prev), i);
                assert(order@.take(t + 1) =~= order@.take(t as int).push(i));
                assert(layer_id_le(all@[order@[t - 1] as int], all@[i as int]));
                assert forall|b: int| 0 <= b < buckets@.len() implies (#[trigger] buckets@[b])@.len() > 0
                    && forall|x: int| 0 <= x < buckets@[b]@.len() ==> #[trigger] buckets@[b]@[x] < all@.len() by {
                    if b < n_b - 1 {
                        assert(buckets@[b] == prev[b]);
                    }
                }
                assert forall|b: int, x: int| 0 <= b < buckets@.len() && 0 <= x < buckets@[b]@.len()
                    implies all@[#[trigger] buckets@[b]@[x] as int].dag_layer == all@[buckets@[b]@[0] as int].dag_layer by {
                    if b < n_b - 1 {
                        assert(buckets@[b] == prev[b]);
                    } else if x < last.len() {
                        assert(buckets@[b]@[x] == last[x]);
                    }
                }
                assert forall|b: int, x: int, y: int| 0 <= b < buckets@.len() && 0 <= x < y < buckets@[b]@.len()
                    implies all@[#[trigger] buckets@[b]@[x] as int].id.0 <= all@[#[trigger] buckets@[b]@[y] as int].id.0 by {
                    if b < n_b - 1 {
                        assert(buckets@[b] == prev[b]);
                    } else if y < last.len() {
                        assert(buckets@[b]@[x] == last[x] && buckets@[b]@[y] == last[y]);
                    } else {
                        assert(buckets@[b]@[x] == last[x]);
                        let j = choose|j: int| 0 <= j < t && order@[j] == #[trigger] prev[b]@[x];
                        assert(layer_id_le(all@[order@[j] as int], all@[order@[t as int] as int]));
                    }
                }
                assert forall|b: int, c: int| 0 <= b < c < buckets@.len()
                    implies all@[(#[trigger] buckets@[b])@[0] as int].dag_layer < all@[(#[trigger] buckets@[c])@[0] as int].dag_layer by {
                    assert(buckets@[b]@[0] == prev[b]@[0]);
                    assert(buckets@[c]@[0] == prev[c]@[0]);
                }
                assert forall|b: int, x: int| 0 <= b < buckets@.len() && 0 <= x < buckets@[b]@.len()
                    implies exists|j: int| 0 <= j < t + 1 && order@[j] == #[trigger] buckets@[b]@[x] by {
                    if b < n_b - 1 {
                        assert(buckets@[b] == prev[b]);
                        let j = choose|j: int| 0 <= j < t && order@[j] == #[trigger] prev[b]@[x];
                    } else if x < last.len() {
                        assert(buckets@[b]@[x] == last[x]);
                        let j = choose|j: int| 0 <= j < t && order@[j] == #[trigger] prev[b]@[x];
                    } else {
                        assert(order@[t as int] == buckets@[b]@[x]);
                    }
                }
            }
        } else {
            let single = vec![i];
            proof {
                assert(single@ =~= seq![i]);
            }
            buckets.push(single);
            proof {
                assert(views(buckets@) =~= views(prev).push(seq![i]));
                lemma_flat_push(views(prev), seq![i]);
                assert(order@.take(t + 1) =~= order@.take(t as int) + seq![i]);
                if n_b > 0 {
                    assert(layer_id_le(all@[order@[t - 1] as int], all@[i as int]));
                    let last = prev[n_b - 1];
                    assert(all@[last@.last() as int].dag_layer == all@[last@[0] as int].dag_layer);
                }
                assert forall|b: int, c: int| 0 <= b < c < buckets@.len()
                    implies all@[(#[trigger] buckets@[b])@[0] as int].dag_layer < all@[(#[trigger] buckets@[c])@[0] as int].dag_layer by {
                    if c < n_b {
                        assert(buckets@[b] == prev[b] && buckets@[c] == prev[c]);
                    } else {
                        assert(buckets@[b] == prev[b]);
                        let last = prev[n_b - 1];
                        if b < n_b - 1 {
                            assert(all@[prev[b]@[0] as int].dag_layer < all@[last@[0] as int].dag_layer);
                        }
                    }
                }
                assert forall|b: int, x: int| 0 <= b < buckets@.len() && 0 <= x < buckets@[b]@.len()
                    implies exists|j: int| 0 <= j < t + 1 && order@[j] == #[trigger] buckets@[b]@[x] by {
                    if b < n_b {
                        assert(buckets@[b] == prev[b]);
                        let j = choose|j: int| 0 <= j < t && order@[j] == #[trigger] prev[b]@[x];
                    } else {
                        assert(order@[t as int] == buckets@[b]@[x]);
                    }
                }
            }
        }
        t += 1;
    }
    proof {
        assert(order@.take(order@.len() as int) =~= order@);
    }
    buckets
}

/// Entangling layers scheduled from an interaction graph.
#[derive(Clone, Debug)]
pub struct EntanglingScheduleResult {
    pub layers: Vec<ScheduleLayer>,
    /// The cycle each scheduled interaction landed in, by interaction id.
    pub interaction_cycle: std::collections::BTreeMap<u32, u32>,
    /// Largest degree Δ among the Misra–Gries coloured commutation groups.
    pub max_degree: u32,
    /// Whether some non-empty commutation group was edge-coloured.
    pub misra_gries_applied: bool,
}

/// The cycle of the `t`-th layer: its index, saturated at `u32::MAX`.
pub open spec fn saturated_cycle(t: int) -> u32 {
    if t < u32::MAX { t as u32 } else { u32::MAX }
}

/// Every layer is at its saturated index, holds between one and `cap`
/// entangles and touches no atom twice.
pub open spec fn entangling_layers_ok(layers: Seq<ScheduleLayer>, cap: u32) -> bool {
    forall|t: int| 0 <= t < layers.len() ==> {
        &&& (#[trigger] layers[t]).cycle == saturated_cycle(t)
        &&& 0 < layers[t].actions@.len() <= cap
        &&& crate::schedule::conflict_free(layers[t].actions@)
        &&& forall|a: int| 0 <= a < layers[t].actions@.len() ==> crate::schedule::is_entangle(#[trigger] layers[t].actions@[a])
    }
}

/// The index of the last interaction with id `id` among the first `m`, or -1.
pub open spec fn resolve_from(all: Seq<Interaction>, id: InteractionId, m: int) -> int
    decreases m,
{
    if m <= 0 {
        -1
    } else if all[m - 1].id == id {
        m - 1
    } else {
        resolve_from(all, id, m - 1)
    }
}

/// The interaction a segment entry names: the last one with its id.
pub open spec fn resolve(all: Seq<Interaction>, id: InteractionId) -> int {
    resolve_from(all, id, all.len() as int)
}

/// The interactions a segment names, in order.
pub open spec fn resolved(all: Seq<Interaction>, ids: Seq<InteractionId>) -> Seq<usize> {
    ids.map_values(|id: InteractionId| resolve(all, id) as usize)
}

/// Every commutation segment among the first `k` names two-qubit
/// interactions on pairwise distinct qubit pairs.
pub open spec fn commutation_simple(all: Seq<Interaction>, segments: Seq<InteractionSegment>, k: int) -> bool {
    forall|s: int| 0 <= s < k && (#[trigger] segments[s]).kind == SegmentKind::CommutationGroup
        ==> simple_prefix(all, resolved(all, segments[s].interactions@), segments[s].interactions@.len() as int)
}

/// Every interaction named by the segments, as often as it is named.
pub open spec fn scheduled_indices(all: Seq<Interaction>, segments: Seq<InteractionSegment>) -> Multiset<usize>
    decreases segments.len(),
{
    if segments.len() == 0 {
        Multiset::empty()
    } else {
        scheduled_indices(all, segments.drop_last()).add(resolved(all, segments.last().interactions@).to_multiset())
    }
}

/// `a` is the entangle action of interaction `it`.
pub open spec fn entangles(a: NeutralAtomAction, it: Interaction) -> bool {
    if it.qubits@.len() == 2 {
        a == pair_entangle(it)
    } else {
        a matches NeutralAtomAction::EntangleN { atoms, duration_us } && atoms@ == qubit_atoms(it.qubits@) && duration_us == 1
    }
}

/// `origin[t][a]` is the interaction whose entangle is action `a` of layer `t`.
pub open spec fn layer_origins(all: Seq<Interaction>, layers: Seq<ScheduleLayer>, origin: Seq<Seq<usize>>) -> bool {
    &&& origin.len() == layers.len()
    &&& forall|t: int| 0 <= t < layers.len() ==> (#[trigger] origin[t]).len() == layers[t].actions@.len()
    &&& forall|t: int, a: int| 0 <= t < layers.len() && 0 <= a < origin[t].len() ==> (#[trigger] origin[t][a]) < all.len()
        && entangles(layers[t].actions@[a], all[origin[t][a] as int])
}

/// The interaction-cycle map records every scheduled interaction's id, and
/// maps each id to the cycle of a layer holding an interaction with that id.
pub open spec fn cycles_recorded(all: Seq<Interaction>, layers: Seq<ScheduleLayer>, origin: Seq<Seq<usize>>,
    ic: Map<u32, u32>) -> bool {
    &&& forall|t: int, a: int| 0 <= t < layers.len() && 0 <= a < origin[t].len()
        ==> ic.contains_key(all[#[trigger] origin[t][a] as int].id.0)
    &&& forall|key: u32| #[trigger] ic.contains_key(key) ==> exists|t: int, a: int| 0 <= t < layers.len()
        && 0 <= a < origin[t].len() && all[#[trigger] origin[t][a] as int].id.0 == key && ic[key] == layers[t].cycle
}

proof fn lemma_resolve_from(all: Seq<Interaction>, id: InteractionId, m: int)
    requires
        0 <= m <= all.len(),
    ensures
        -1 <= resolve_from(all, id, m) < m,
        resolve_from(all, id, m) >= 0 ==> all[resolve_from(all, id, m)].id == id,
        resolve_from(all, id, m) == -1 ==> forall|i: int| 0 <= i < m ==> (#[trigger] all[i]).id != id,
    decreases m,
{
    if m > 0 {
        lemma_resolve_from(all, id, m - 1);
    }
}

/// The last interaction with id `id`, if any.
fn find_interaction(all: &Vec<Interaction>, id: InteractionId) -> (r: Option<usize>)
    ensures
        r matches Some(i) ==> i < all@.len() && all@[i as int].id == id && i == resolve(all@, id),
        r is None ==> resolve(all@, id) == -1 && forall|i: int| 0 <= i < all@.len() ==> (#[trigger] all@[i]).id != id,
{
    let mut i: usize = all.len();
    while i > 0
        invariant
            i <= all@.len(),
            forall|j: int| i <= j < all@.len() ==> (#[trigger] all@[j]).id != id,
            resolve(all@, id) == resolve_from(all@, id, i as int),
        decreases i,
    {
        if all[i - 1].id.0 == id.0 {
            proof {
                assert(all@[i - 1].id == id);
            }
            return Some(i - 1);
        }
        i -= 1;
    }
    proof {
        lemma_resolve_from(all@, id, all@.len() as int);
    }
    None
}

/// Chunk `t` of a bucket cut into pieces of `cap`: the entries from `t * cap`
/// up to `(t + 1) * cap`, or to the end of the bucket.
pub open spec fn bucket_chunk(bucket: Seq<usize>, cap: int, t: int) -> Seq<usize> {
    bucket.subrange(t * cap, if (t + 1) * cap <= bucket.len() { (t + 1) * cap } else { bucket.len() as int })
}

/// `after` is `before` followed by the chunks of `bucket`, `ceil(len / cap)`
/// of them.
pub open spec fn emitted_in_chunks(bucket: Seq<usize>, cap: int, before: Seq<Seq<usize>>, after: Seq<Seq<usize>>) -> bool {
    &&& after.len() == before.len() + (bucket.len() + cap - 1) / cap
    &&& after.take(before.len() as int) == before
    &&& forall|t: int| 0 <= t < after.len() - before.len() ==> #[trigger] after[before.len() + t] == bucket_chunk(bucket, cap, t)
}

/// A bucket of `s` interactions fills the fewest layers that capacity `cap`
/// allows: every new layer but the last holds exactly `cap` interactions, the
/// last holds between one and `cap`, and the new layers hold the bucket's
/// interactions in order, each picking up where the previous one ended.
pub proof fn lemma_bucket_fills_layers(bucket: Seq<usize>, cap: int, before: Seq<Seq<usize>>, after: Seq<Seq<usize>>)
    requires
        cap > 0,
        emitted_in_chunks(bucket, cap, before, after),
    ensures
        after.take(before.len() as int) == before,
        bucket.len() == 0 <==> after.len() == before.len(),
        forall|t: int| 0 <= t < after.len() - before.len() ==> #[trigger] after[before.len() + t]
            == bucket.subrange(t * cap, t * cap + after[before.len() + t].len()),
        forall|t: int| 0 <= t < after.len() - before.len() - 1 ==> (#[trigger] after[before.len() + t]).len() == cap,
        after.len() > before.len() ==> 0 < after.last().len() <= cap
            && (after.len() - before.len() - 1) * cap + after.last().len() == bucket.len(),
{
    let s = bucket.len() as int;
    let b = before.len() as int;
    let n = (s + cap - 1) / cap;
    vstd::arithmetic::div_mod::lemma_fundamental_div_mod(s + cap - 1, cap);
    let r = (s + cap - 1) % cap;
    assert(s + cap - 1 == cap * n + r);
    assert(0 <= r < cap);
    assert(n * cap == cap * n) by (nonlinear_arith);
    if s == 0 {
        assert(n == 0) by (nonlinear_arith)
            requires
                cap - 1 == cap * n + r,
                0 <= r < cap,
        ;
    } else {
        assert(n >= 1) by (nonlinear_arith)
            requires
                s + cap - 1 == cap * n + r,
                0 <= r < cap,
                s > 0,
        ;
    }
    assert forall|t: int| 0 <= t < after.len() - before.len() implies #[trigger] after[before.len() + t]
        == bucket.subrange(t * cap, t * cap + after[before.len() + t].len()) by {
        assert(after[b + t] == bucket_chunk(bucket, cap, t));
        assert(t * cap <= s) by (nonlinear_arith)
            requires
                0 <= t < n,
                s + cap - 1 == cap * n + r,
                0 <= r < cap,
        ;
        assert((t + 1) * cap == t * cap + cap) by (nonlinear_arith);
    }
    assert forall|t: int| 0 <= t < after.len() - before.len() - 1 implies (#[trigger] after[before.len() + t]).len() == cap by {
        assert(after[b + t] == bucket_chunk(bucket, cap, t));
        assert((t + 1) * cap <= s) by (nonlinear_arith)
            requires
                0 <= t < n - 1,
                s + cap - 1 == cap * n + r,
                0 <= r < cap,
        ;
        assert((t + 1) * cap == t * cap + cap) by (nonlinear_arith);
        assert(0 <= t * cap) by (nonlinear_arith)
            requires
                0 <= t,
                cap > 0,
        ;
    }
    if after.len() > before.len() {
        let t = n - 1;
        assert(after.last() == after[b + t]);
        assert(after[b + t] == bucket_chunk(bucket, cap, t));
        assert(t * cap < s && s <= (t + 1) * cap) by (nonlinear_arith)
            requires
                t == n - 1,
                n >= 1,
                s + cap - 1 == cap * n + r,
                0 <= r < cap,
        ;
        assert((t + 1) * cap == t * cap + cap) by (nonlinear_arith);
        assert(0 <= t * cap) by (nonlinear_arith)
            requires
                0 <= t,
                cap > 0,
        ;
    }
}

/// Append the layers of one bucket: consecutive chunks of at most `cap`
/// interactions, each one layer at the next cycle. `origin` follows the
/// layers: the interaction behind each action.
fn emit_bucket(all: &Vec<Interaction>, bucket: &Vec<usize>, cap: u32, layers: &mut Vec<ScheduleLayer>,
    interaction_cycle: &mut std::collections::BTreeMap<u32, u32>, next_cycle: &mut u32,
    Ghost(origin_in): Ghost<Seq<Seq<usize>>>)
    -> (r: (Result<(), EntanglingScheduleError>, Ghost<Seq<Seq<usize>>>))
    requires
        cap > 0,
        forall|t: int| 0 <= t < bucket@.len() ==> #[trigger] bucket@[t] < all@.len(),
        entangling_layers_ok(old(layers)@, cap),
        *old(next_cycle) == saturated_cycle(old(layers)@.len() as int),
        layer_origins(all@, old(layers)@, origin_in),
        cycles_recorded(all@, old(layers)@, origin_in, old(interaction_cycle)@),
    ensures
        r.0 is Ok ==> entangling_layers_ok(final(layers)@, cap),
        r.0 is Ok ==> cycles_recorded(all@, final(layers)@, r.1@, final(interaction_cycle)@),
        r.0 is Ok ==> *final(next_cycle) == saturated_cycle(final(layers)@.len() as int),
        r.0 is Ok ==> layer_origins(all@, final(layers)@, r.1@),
        r.0 is Ok ==> flat(r.1@) == flat(origin_in) + bucket@,
        r.0 is Ok ==> emitted_in_chunks(bucket@, cap as int, origin_in, r.1@),
        r.0 matches Err(e) ==> e is Conflict,
{
    let ghost mut origin = origin_in;
    let ghost mut q: int = 0;
    let mut start: usize = 0;
    proof {
        assert(origin.take(origin_in.len() as int) =~= origin_in);
    }
    while start < bucket.len()
        invariant
            cap > 0,
            forall|t: int| 0 <= t < bucket@.len() ==> #[trigger] bucket@[t] < all@.len(),
            entangling_layers_ok(layers@, cap),
            *next_cycle == saturated_cycle(layers@.len() as int),
            start <= bucket@.len(),
            layer_origins(all@, layers@, origin),
            cycles_recorded(all@, layers@, origin, interaction_cycle@),
            flat(origin) == flat(origin_in) + bucket@.subrange(0, start as int),
            q >= 0,
            origin.len() == origin_in.len() + q,
            origin.take(origin_in.len() as int) == origin_in,
            forall|t: int| 0 <= t < q ==> #[trigger] origin[origin_in.len() + t] == bucket_chunk(bucket@, cap as int, t),
            start < bucket@.len() ==> start == q * cap,
            start == bucket@.len() ==> (q == 0 && bucket@.len() == 0) || ((q - 1) * cap < bucket@.len() <= q * cap),
        decreases bucket.len() - start,
    {
        let end = if bucket.len() - start > cap as usize { start + cap as usize } else { bucket.len() };
        proof {
            assert((q + 1) * cap == q * cap + cap) by (nonlinear_arith);
        }
        let mut actions: Vec<NeutralAtomAction> = Vec::new();
        let mut j: usize = start;
        while j < end
            invariant
                start <= j <= end <= bucket@.len(),
                end - start <= cap,
                forall|t: int| 0 <= t < bucket@.len() ==> #[trigger] bucket@[t] < all@.len(),
                actions@.len() == j - start,
                forall|a: int| 0 <= a < actions@.len() ==> crate::schedule::is_entangle(#[trigger] actions@[a]),
                forall|a: int| 0 <= a < actions@.len() ==> entangles(#[trigger] actions@[a], all@[bucket@[start + a] as int]),
            decreases end - j,
        {
            let a = entangle_action(&all[bucket[j]]);
            actions.push(a);
            j += 1;
        }
        let empty: Vec<NeutralAtomAction> = Vec::new();
        if let Some(atom) = crate::schedule::find_atom_conflict(&actions, &empty) {
            return (Err(EntanglingScheduleError::Conflict { cycle: *next_cycle, atom: AtomId(atom) }), Ghost(origin));
        }
        proof {
            assert(actions@ + empty@ =~= actions@);
        }
        let ghost ic0 = interaction_cycle@;
        let mut j: usize = start;
        while j < end
            invariant
                start <= j <= end <= bucket@.len(),
                forall|t: int| 0 <= t < bucket@.len() ==> #[trigger] bucket@[t] < all@.len(),
                layer_origins(all@, layers@, origin),
                cycles_recorded(all@, layers@, origin, ic0),
                forall|key: u32| #[trigger] ic0.contains_key(key) ==> interaction_cycle@.contains_key(key),
                forall|j2: int| start <= j2 < j ==> interaction_cycle@.contains_key(all@[#[trigger] bucket@[j2] as int].id.0),
                forall|key: u32| #[trigger] interaction_cycle@.contains_key(key) ==> (ic0.contains_key(key)
                    && interaction_cycle@[key] == ic0[key]) || (exists|j2: int| start <= j2 < j
                    && all@[#[trigger] bucket@[j2] as int].id.0 == key && interaction_cycle@[key] == *next_cycle),
            decreases end - j,
        {
            interaction_cycle.insert(all[bucket[j]].id.0, *next_cycle);
            j += 1;
        }
        let ghost prev = layers@;
        let ghost prev_origin = origin;
        let ghost chunk = bucket@.subrange(start as int, end as int);
        let ghost old_cycle = *next_cycle;
        layers.push(ScheduleLayer { cycle: *next_cycle, actions });
        *next_cycle = next_cycle.saturating_add(1);
        proof {
            origin = origin.push(chunk);
            assert(chunk == bucket_chunk(bucket@, cap as int, q));
            assert(origin.take(origin_in.len() as int) =~= prev_origin.take(origin_in.len() as int));
            assert forall|t: int| 0 <= t < q + 1 implies #[trigger] origin[origin_in.len() + t] == bucket_chunk(bucket@, cap as int, t) by {
                if t < q {
                    assert(origin[origin_in.len() + t] == prev_origin[origin_in.len() + t]);
                }
            }
            q = q + 1;
            lemma_flat_push(prev_origin, chunk);
            assert(bucket@.subrange(0, end as int) =~= bucket@.subrange(0, start as int) + chunk);
            assert forall|t: int| 0 <= t < layers@.len() implies {
                &&& (#[trigger] layers@[t]).cycle == saturated_cycle(t)
                &&& 0 < layers@[t].actions@.len() <= cap
                &&& crate::schedule::conflict_free(layers@[t].actions@)
                &&& forall|a: int| 0 <= a < layers@[t].actions@.len() ==> crate::schedule::is_entangle(#[trigger] layers@[t].actions@[a])
            } by {
                if t < prev.len() {
                    assert(layers@[t] == prev[t]);
                }
            }
            assert forall|t: int| 0 <= t < layers@.len() implies (#[trigger] origin[t]).len() == layers@[t].actions@.len() by {
                if t < prev.len() {
                    assert(layers@[t] == prev[t]);
                    assert(origin[t] == prev_origin[t]);
                }
            }
            assert forall|t: int, a: int| 0 <= t < layers@.len() && 0 <= a < origin[t].len() implies (#[trigger] origin[t][a]) < all@.len()
                && entangles(layers@[t].actions@[a], all@[origin[t][a] as int]) by {
                if t < prev.len() {
                    assert(layers@[t] == prev[t]);
                    assert(origin[t] == prev_origin[t]);
                } else {
                    assert(origin[t][a] == bucket@[start + a]);
                }
            }
            assert forall|t: int, a: int| 0 <= t < layers@.len() && 0 <= a < origin[t].len()
                implies interaction_cycle@.contains_key(all@[#[trigger] origin[t][a] as int].id.0) by {
                if t < prev.len() {
                    assert(origin[t] == prev_origin[t]);
                    assert(ic0.contains_key(all@[prev_origin[t][a] as int].id.0));
                } else {
                    assert(origin[t][a] == bucket@[start + a]);
                }
            }
            assert forall|key: u32| #[trigger] interaction_cycle@.contains_key(key) implies exists|t: int, a: int| 0 <= t < layers@.len()
                && 0 <= a < origin[t].len() && all@[#[trigger] origin[t][a] as int].id.0 == key
                && interaction_cycle@[key] == layers@[t].cycle by {
                if ic0.contains_key(key) && interaction_cycle@[key] == ic0[key] {
                    let (t, a) = choose|t: int, a: int| 0 <= t < prev.len()
                        && 0 <= a < prev_origin[t].len() && all@[#[trigger] prev_origin[t][a] as int].id.0 == key
                        && ic0[key] == prev[t].cycle;
                    assert(origin[t] == prev_origin[t]);
                    assert(layers@[t] == prev[t]);
                    assert(all@[origin[t][a] as int].id.0 == key);
                } else {
                    let j2 = choose|j2: int| start <= j2 < end
                        && all@[#[trigger] bucket@[j2] as int].id.0 == key && interaction_cycle@[key] == old_cycle;
                    let t = prev.len() as int;
                    assert(origin[t][j2 - start] == bucket@[j2]);
                    assert(all@[origin[t][j2 - start] as int].id.0 == key);
                }
            }
        }
        start = end;
    }
    proof {
        assert(bucket@.subrange(0, bucket@.len() as int) =~= bucket@);
        let s = bucket@.len() as int;
        let c = cap as int;
        if s == 0 {
            vstd::arithmetic::div_mod::lemma_fundamental_div_mod_converse(c - 1, c, 0, c - 1);
        } else {
            assert(0 <= s + c - 1 - q * c < c) by (nonlinear_arith)
                requires
                    (q - 1) * c < s <= q * c,
            ;
            vstd::arithmetic::div_mod::lemma_fundamental_div_mod_converse(s + c - 1, c, q, s + c - 1 - q * c);
        }
        assert(emitted_in_chunks(bucket@, cap as int, origin_in, origin));
    }
    (Ok(()), Ghost(origin))
}

/// Some segment of the list is a non-empty commutation group.
pub open spec fn has_commutation_group(segments: Seq<InteractionSegment>) -> bool {
    exists|s: int| 0 <= s < segments.len() && (#[trigger] segments[s]).kind == SegmentKind::CommutationGroup
        && segments[s].interactions@.len() > 0
}

/// Schedule the entangling layers of an interaction graph, segment by
/// segment: a commutation group's Misra–Gries colour classes, or a
/// dependency DAG's ASAP-layer buckets, each split into layers of at most
/// `max_parallel_entangling_pairs` entangles at consecutive cycles (saturating
/// at `u32::MAX`). A zero capacity is refused before anything else; a
/// segment naming an unknown interaction, a commutation group that is not a
/// simple graph of two-qubit interactions, or a layer touching an atom twice
/// ends the run with that error.
pub fn schedule_entangling_layers(interactions: &Vec<Interaction>, segments: &Vec<InteractionSegment>,
    max_parallel_entangling_pairs: u32) -> (r: Result<EntanglingScheduleResult, EntanglingScheduleError>)
    requires
        forall|s: int| 0 <= s < segments@.len() ==> 2 * (#[trigger] segments@[s]).interactions@.len() < u32::MAX,
    ensures
        (r matches Err(EntanglingScheduleError::InvalidCapacity(c)) && c == 0) <==> max_parallel_entangling_pairs == 0,
        r matches Err(EntanglingScheduleError::UnknownInteraction(id)) ==> (exists|s: int, j: int| 0 <= s < segments@.len()
            && 0 <= j < segments@[s].interactions@.len() && #[trigger] segments@[s].interactions@[j] == id)
            && forall|i: int| 0 <= i < interactions@.len() ==> (#[trigger] interactions@[i]).id != id,
        r matches Err(EntanglingScheduleError::MultiQubitCommutation(id)) ==> exists|i: int| 0 <= i < interactions@.len()
            && (#[trigger] interactions@[i]).id == id && interactions@[i].qubits@.len() != 2,
        r matches Ok(res) ==> entangling_layers_ok(res.layers@, max_parallel_entangling_pairs),
        r matches Ok(res) ==> res.misra_gries_applied == has_commutation_group(segments@),
        r is Ok ==> commutation_simple(interactions@, segments@, segments@.len() as int),
        r matches Err(EntanglingScheduleError::DuplicatePair(a, b)) ==> exists|s: int| 0 <= s < segments@.len()
            && (#[trigger] segments@[s]).kind == SegmentKind::CommutationGroup
            && !simple_prefix(interactions@, resolved(interactions@, segments@[s].interactions@),
                segments@[s].interactions@.len() as int),
        r == Err::<EntanglingScheduleResult, EntanglingScheduleError>(EntanglingScheduleError::ColouringIncomplete)
            ==> exists|s: int| 0 <= s < segments@.len() && (#[trigger] segments@[s]).kind == SegmentKind::CommutationGroup
            && simple_prefix(interactions@, resolved(interactions@, segments@[s].interactions@),
                segments@[s].interactions@.len() as int)
            && exists|n: int, edges: Seq<(usize, usize, InteractionId)>|
                #[trigger] rank_graph_of(interactions@, resolved(interactions@, segments@[s].interactions@), n, edges)
                && mg_fails_on(edges, n),
        r is Ok ==> exists|origin: Seq<Seq<usize>>| #[trigger] layer_origins(interactions@, r->Ok_0.layers@, origin)
            && flat(origin).to_multiset() =~= scheduled_indices(interactions@, segments@)
            && cycles_recorded(interactions@, r->Ok_0.layers@, origin, r->Ok_0.interaction_cycle@),
{
    if max_parallel_entangling_pairs == 0 {
        return Err(EntanglingScheduleError::InvalidCapacity(0));
    }
    let cap = max_parallel_entangling_pairs;
    let mut layers: Vec<ScheduleLayer> = Vec::new();
    let mut interaction_cycle: std::collections::BTreeMap<u32, u32> = std::collections::BTreeMap::new();
    let mut next_cycle: u32 = 0;
    let mut max_degree: u32 = 0;
    let mut saw_commutation = false;
    let ghost mut origin: Seq<Seq<usize>> = Seq::empty();
    proof {
        assert(flat(origin) =~= Seq::<usize>::empty());
        assert(segments@.take(0) =~= Seq::<InteractionSegment>::empty());
        assert(cycles_recorded(interactions@, layers@, origin, interaction_cycle@));
    }
    let mut si: usize = 0;
    while si < segments.len()
        invariant
            cap == max_parallel_entangling_pairs,
            cap > 0,
            forall|s: int| 0 <= s < segments@.len() ==> 2 * (#[trigger] segments@[s]).interactions@.len() < u32::MAX,
            si <= segments@.len(),
            entangling_layers_ok(layers@, cap),
            next_cycle == saturated_cycle(layers@.len() as int),
            saw_commutation == has_commutation_group(segments@.take(si as int)),
            layer_origins(interactions@, layers@, origin),
            flat(origin).to_multiset() =~= scheduled_indices(interactions@, segments@.take(si as int)),
            cycles_recorded(interactions@, layers@, origin, interaction_cycle@),
            commutation_simple(interactions@, segments@, si as int),
        decreases segments.len() - si,
    {
        let segment = &segments[si];
        let ids = &segment.interactions;
        let mut group: Vec<usize> = Vec::new();
        let mut j: usize = 0;
        while j < ids.len()
            invariant
                si < segments@.len(),
                ids@ == segments@[si as int].interactions@,
                max_parallel_entangling_pairs > 0,
                j <= ids@.len(),
                group@.len() == j,
                forall|t: int| 0 <= t < group@.len() ==> #[trigger] group@[t] < interactions@.len(),
                group@ == resolved(interactions@, ids@.take(j as int)),
            decreases ids.len() - j,
        {
            match find_interaction(interactions, ids[j]) {
                Some(i) => {
                    group.push(i);
                    proof {
                        assert(resolved(interactions@, ids@.take(j + 1)) =~= resolved(interactions@, ids@.take(j as int)).push(i));
                    }
                },
                None => {
                    proof {
                        assert(segments@[si as int].interactions@[j as int] == ids@[j as int]);
                    }
                    return Err(EntanglingScheduleError::UnknownInteraction(ids[j]));
                },
            }
            j += 1;
        }
        proof {
            assert(ids@.take(ids@.len() as int) =~= ids@);
            assert(segments@.take(si + 1).drop_last() =~= segments@.take(si as int));
            let t = segments@.take(si + 1);
            assert(t.last() == segments@[si as int]);
            if has_commutation_group(t) {
                let s = choose|s: int| 0 <= s < t.len() && (#[trigger] t[s]).kind == SegmentKind::CommutationGroup
                    && t[s].interactions@.len() > 0;
                if s < si {
                    assert(segments@.take(si as int)[s] == t[s]);
                }
            }
            if has_commutation_group(segments@.take(si as int)) {
                let s = choose|s: int| 0 <= s < si && (#[trigger] segments@.take(si as int)[s]).kind == SegmentKind::CommutationGroup
                    && segments@.take(si as int)[s].interactions@.len() > 0;
                assert(t[s] == segments@.take(si as int)[s]);
            }
            if segment.kind == SegmentKind::CommutationGroup && ids@.len() > 0 {
                assert(t[si as int] == segments@[si as int]);
            }
        }
        proof {
            assert(group@ == resolved(interactions@, segments@[si as int].interactions@));
        }
        if group.len() == 0 {
            proof {
                assert(group@.to_multiset() =~= Multiset::<usize>::empty());
            }
            si += 1;
            continue;
        }
        let ghost origin_seg = origin;
        let buckets = match segment.kind {
            SegmentKind::CommutationGroup => {
                saw_commutation = true;
                match color_commutation_group(interactions, &group) {
                    Ok((classes, delta)) => {
                        proof {
                            assert(simple_prefix(interactions@, group@, group@.len() as int));
                        }
                        if delta > max_degree {
                            max_degree = delta;
                        }
                        classes
                    },
                    Err(e) => {
                        proof {
                            if e is MultiQubitCommutation {
                                let jj = choose|jj: int| 0 <= jj < group@.len()
                                    && interactions@[#[trigger] group@[jj] as int].id == e->MultiQubitCommutation_0
                                    && interactions@[group@[jj] as int].qubits@.len() != 2;
                                assert(interactions@[group@[jj] as int].id == e->MultiQubitCommutation_0);
                            }
                            let seg = segments@[si as int];
                            assert(seg.kind == SegmentKind::CommutationGroup);
                            assert(group@ == resolved(interactions@, seg.interactions@));
                            assert(group@.len() == seg.interactions@.len());
                        }
                        return Err(e);
                    },
                }
            },
            SegmentKind::DependencyDag => asap_buckets(interactions, &group),
        };
        proof {
            assert(buckets@.take(0) =~= Seq::<Vec<usize>>::empty());
            assert(views(buckets@.take(0)) =~= Seq::<Seq<usize>>::empty());
            assert(flat(origin) =~= flat(origin_seg) + flat(views(buckets@.take(0))));
        }
        let mut b: usize = 0;
        while b < buckets.len()
            invariant
                cap == max_parallel_entangling_pairs,
                cap > 0,
                b <= buckets@.len(),
                forall|x: int| 0 <= x < buckets@.len() ==> forall|t: int| 0 <= t < (#[trigger] buckets@[x])@.len()
                    ==> #[trigger] buckets@[x]@[t] < interactions@.len(),
                entangling_layers_ok(layers@, cap),
                next_cycle == saturated_cycle(layers@.len() as int),
                layer_origins(interactions@, layers@, origin),
                flat(origin) == flat(origin_seg) + flat(views(buckets@.take(b as int))),
                cycles_recorded(interactions@, layers@, origin, interaction_cycle@),
            decreases buckets.len() - b,
        {
            let (res, Ghost(new_origin)) = emit_bucket(interactions, &buckets[b], cap, &mut layers, &mut interaction_cycle,
                &mut next_cycle, Ghost(origin));
            if let Err(e) = res {
                return Err(e);
            }
            proof {
                assert(buckets@.take(b + 1) =~= buckets@.take(b as int).push(buckets@[b as int]));
                assert(views(buckets@.take(b + 1)) =~= views(buckets@.take(b as int)).push(buckets@[b as int]@));
                lemma_flat_push(views(buckets@.take(b as int)), buckets@[b as int]@);
                assert(flat(new_origin) =~= flat(origin_seg) + flat(views(buckets@.take(b + 1))));
                origin = new_origin;
            }
            b += 1;
        }
        proof {
            assert(buckets@.take(buckets@.len() as int) =~= buckets@);
            vstd::seq_lib::lemma_multiset_commutative(flat(origin_seg), flat(views(buckets@)));
        }
        si += 1;
    }
    proof {
        assert(segments@.take(segments@.len() as int) =~= segments@);
    }
    let res = EntanglingScheduleResult { layers, interaction_cycle, max_degree, misra_gries_applied: saw_commutation };
    proof {
        assert(layer_origins(interactions@, res.layers@, origin));
        assert(segments@.take(segments@.len() as int) == segments@);
        assert(flat(origin).to_multiset() =~= scheduled_indices(interactions@, segments@));
    }
    let out: Result<EntanglingScheduleResult, EntanglingScheduleError> = Ok(res);
    proof {
        assert(layer_origins(interactions@, out->Ok_0.layers@, origin));
        assert(cycles_recorded(interactions@, out->Ok_0.layers@, origin, out->Ok_0.interaction_cycle@));
    }
    out
}

/// With distinct interaction ids, an interaction's id resolves to it.
proof fn lemma_resolve_own(all: Seq<Interaction>, x: int, m: int)
    requires
        0 <= x < m <= all.len(),
        forall|i: int, j: int| 0 <= i < j < all.len() ==> (#[trigger] all[i]).id != (#[trigger] all[j]).id,
    ensures
        resolve_from(all, all[x].id, m) == x,
    decreases m,
{
    if m - 1 != x {
        assert(all[m - 1].id != all[x].id);
        lemma_resolve_own(all, x, m - 1);
    }
}

/// How often index `x` is named by `ids`: as often as the id of interaction `x` occurs.
proof fn lemma_resolved_count(all: Seq<Interaction>, ids: Seq<InteractionId>, x: int)
    requires
        0 <= x < all.len() <= usize::MAX,
        forall|i: int, j: int| 0 <= i < j < all.len() ==> (#[trigger] all[i]).id != (#[trigger] all[j]).id,
        forall|k: int| 0 <= k < ids.len() ==> crate::graph_check::is_interaction(all, #[trigger] ids[k]),
    ensures
        resolved(all, ids).to_multiset().count(x as usize) == crate::graph_check::id_count(ids, all[x].id),
        forall|k: int| 0 <= k < ids.len() ==> #[trigger] resolved(all, ids)[k] < all.len(),
    decreases ids.len(),
{
    if ids.len() > 0 {
        let front = ids.drop_last();
        lemma_resolved_count(all, front, x);
        assert(resolved(all, ids) =~= resolved(all, front).push(resolve(all, ids.last()) as usize));
        let id = ids.last();
        assert(crate::graph_check::is_interaction(all, ids[ids.len() - 1]));
        let w = choose|w: int| 0 <= w < all.len() && (#[trigger] all[w]).id == id;
        lemma_resolve_own(all, w, all.len() as int);
        assert(resolve(all, id) == w);
        lemma_resolve_own(all, x, all.len() as int);
        assert(resolved(all, ids).to_multiset() =~= resolved(all, front).to_multiset().insert(w as usize));
        let m0 = resolved(all, front).to_multiset();
        assert(m0.insert(w as usize).count(x as usize) == m0.count(x as usize) + (if w == x { 1int } else { 0int }));
        assert(crate::graph_check::id_count(ids, all[x].id) == crate::graph_check::id_count(front, all[x].id)
            + (if id == all[x].id { 1int } else { 0int }));
        if id == all[x].id {
            assert(w == x);
        } else {
            assert(w != x);
        }
        assert forall|k: int| 0 <= k < ids.len() implies #[trigger] resolved(all, ids)[k] < all.len() by {
            if k < front.len() {
                assert(resolved(all, ids)[k] == resolved(all, front)[k]);
            }
        }
    } else {
        assert(resolved(all, ids).to_multiset() =~= Multiset::<usize>::empty());
    }
}

proof fn lemma_scheduled_count(all: Seq<Interaction>, segments: Seq<InteractionSegment>, x: int)
    requires
        0 <= x < all.len() <= usize::MAX,
        forall|i: int, j: int| 0 <= i < j < all.len() ==> (#[trigger] all[i]).id != (#[trigger] all[j]).id,
        forall|s: int, k: int| 0 <= s < segments.len() && 0 <= k < segments[s].interactions@.len()
            ==> crate::graph_check::is_interaction(all, #[trigger] segments[s].interactions@[k]),
    ensures
        scheduled_indices(all, segments).count(x as usize) == crate::graph_check::segment_count(segments, all[x].id),
    decreases segments.len(),
{
    if segments.len() > 0 {
        let front = segments.drop_last();
        assert forall|s: int, k: int| 0 <= s < front.len() && 0 <= k < front[s].interactions@.len()
            implies crate::graph_check::is_interaction(all, #[trigger] front[s].interactions@[k]) by {
            assert(front[s] == segments[s]);
        }
        lemma_scheduled_count(all, front, x);
        let last = segments.last().interactions@;
        assert forall|k: int| 0 <= k < last.len() implies crate::graph_check::is_interaction(all, #[trigger] last[k]) by {
            assert(segments[segments.len() - 1].interactions@[k] == last[k]);
        }
        lemma_resolved_count(all, last, x);
    }
}

proof fn lemma_scheduled_in_range(all: Seq<Interaction>, segments: Seq<InteractionSegment>, y: usize)
    requires
        all.len() <= usize::MAX,
        forall|i: int, j: int| 0 <= i < j < all.len() ==> (#[trigger] all[i]).id != (#[trigger] all[j]).id,
        forall|s: int, k: int| 0 <= s < segments.len() && 0 <= k < segments[s].interactions@.len()
            ==> crate::graph_check::is_interaction(all, #[trigger] segments[s].interactions@[k]),
        scheduled_indices(all, segments).count(y) > 0,
    ensures
        y < all.len(),
    decreases segments.len(),
{
    if segments.len() > 0 {
        let front = segments.drop_last();
        assert forall|s: int, k: int| 0 <= s < front.len() && 0 <= k < front[s].interactions@.len()
            implies crate::graph_check::is_interaction(all, #[trigger] front[s].interactions@[k]) by {
            assert(front[s] == segments[s]);
        }
        let last = segments.last().interactions@;
        if scheduled_indices(all, front).count(y) > 0 {
            lemma_scheduled_in_range(all, front, y);
        } else {
            assert(resolved(all, last).to_multiset().count(y) > 0);
            assert(resolved(all, last).contains(y));
            let k = choose|k: int| 0 <= k < resolved(all, last).len() && resolved(all, last)[k] == y;
            assert(crate::graph_check::is_interaction(all, segments[segments.len() - 1].interactions@[k]));
            let w = choose|w: int| 0 <= w < all.len() && (#[trigger] all[w]).id == last[k];
            lemma_resolve_own(all, w, all.len() as int);
        }
    }
}

/// On a structurally valid graph the segments name every interaction
/// exactly once, so the scheduled layers hold each interaction's entangle
/// exactly once: every index below the interaction count is scheduled once
/// and nothing else is.
pub proof fn lemma_valid_graph_schedules_each_once(vertices: Seq<LogicalQubitId>, interactions: Seq<Interaction>,
    edges: Seq<crate::graph_check::EdgeFacts>, segments: Seq<InteractionSegment>, gamma_ok: bool)
    requires
        crate::graph_check::graph_valid(vertices, interactions, edges, segments, gamma_ok),
        interactions.len() <= usize::MAX,
    ensures
        forall|x: int| 0 <= x < interactions.len() ==> #[trigger] scheduled_indices(interactions, segments).count(x as usize) == 1,
        forall|y: usize| #[trigger] scheduled_indices(interactions, segments).count(y) > 0 ==> y < interactions.len(),
{
    assert forall|x: int| 0 <= x < interactions.len() implies #[trigger] scheduled_indices(interactions, segments).count(x as usize) == 1 by {
        lemma_scheduled_count(interactions, segments, x);
    }
    assert forall|y: usize| #[trigger] scheduled_indices(interactions, segments).count(y) > 0 implies y < interactions.len() by {
        lemma_scheduled_in_range(interactions, segments, y);
    }
}

} // verus!
