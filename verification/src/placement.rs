//! Integer side of initial placement: the placement strategies, the compact
//! grid that holds the qubits, the orders in which its sites are filled, and
//! the check that a layout binds every vertex exactly once.

use vstd::prelude::*;

use crate::ids::{AtomBinding, LogicalQubitId, SiteId};

verus! {

broadcast use vstd::std_specs::btree::group_btree_axioms, vstd::laws_cmp::group_laws_cmp;

/// Placement heuristic.
#[derive(Clone, Copy, Debug, PartialEq, Eq, Hash, Structural)]
pub enum PlacementStrategy {
    /// Ascending qubit id onto row-major sites.
    RowMajor,
    /// Weighted degree descending onto a spiral from the grid center.
    DegreeBased,
    /// Agglomerative clustering on gate-frequency weights, packed in row bands.
    InteractionClustering,
    /// Solver-optimal placement; falls back to clustering.
    Exact,
}

/// The least `c >= 1` with `c * c >= n`.
pub open spec fn is_ceil_sqrt(n: int, c: int) -> bool {
    &&& c >= 1
    &&& c * c >= n
    &&& (c - 1) * (c - 1) < n || c == 1
}

/// Ceiling of the square root of `n`, at least 1, by bisection.
fn ceil_sqrt(n: usize) -> (c: usize)
    ensures
        is_ceil_sqrt(n as int, c as int),
        c <= 0x1_0000_0000,
{
    let nn = n as u128;
    let mut lo: u128 = 1;
    let mut hi: u128 = 0x1_0000_0000;
    proof {
        assert(hi * hi == 0x1_0000_0000_0000_0000) by (nonlinear_arith)
            requires hi == 0x1_0000_0000;
    }
    while lo < hi
        invariant
            1 <= lo <= hi <= 0x1_0000_0000,
            nn == n,
            hi * hi >= nn,
            (lo - 1) * (lo - 1) < nn || lo == 1,
        decreases hi - lo,
    {
        let mid = lo + (hi - lo) / 2;
        proof {
            assert(mid * mid <= 0x1_0000_0000_0000_0000) by (nonlinear_arith)
                requires mid <= 0x1_0000_0000;
        }
        if mid * mid >= nn {
            hi = mid;
        } else {
            lo = mid + 1;
        }
    }
    proof {
        assert(lo <= usize::MAX) by (nonlinear_arith)
            requires
                lo >= 1,
                (lo - 1) * (lo - 1) < nn || lo == 1,
                nn <= usize::MAX,
        ;
    }
    lo as usize
}

/// Compact rectangle `(rows, cols)` with `rows * cols >= n`: `cols` is the
/// ceiling of the square root of `n` and `rows` the ceiling of `n / cols`;
/// `(0, 0)` for no qubits.
pub fn grid_dims(n: usize) -> (r: (usize, usize))
    ensures
        n == 0 ==> r == (0usize, 0usize),
        n > 0 ==> is_ceil_sqrt(n as int, r.1 as int) && r.0 == (n + r.1 - 1) / (r.1 as int),
        r.0 * r.1 >= n,
{
    if n == 0 {
        return (0, 0);
    }
    let cols = ceil_sqrt(n);
    proof {
        assert(n / cols + 1 <= usize::MAX) by (nonlinear_arith)
            requires
                cols >= 2 || n == 1,
                cols * cols >= n,
                n <= usize::MAX,
        ;
    }
    let rows = if n % cols == 0 { n / cols } else { n / cols + 1 };
    proof {
        let q = (n + cols - 1) / (cols as int);
        assert(rows == q && q * cols >= n) by (nonlinear_arith)
            requires
                cols >= 1,
                q == (n + cols - 1) / (cols as int),
                rows == if n % cols == 0 { (n / cols) as int } else { n / cols + 1 },
        ;
    }
    (rows, cols)
}

/// Every site of a `rows x cols` grid in row-major order.
pub fn row_major_sites(rows: usize, cols: usize) -> (r: Vec<SiteId>)
    requires
        rows * cols <= u32::MAX,
    ensures
        r@.len() == rows * cols,
        forall|i: int| 0 <= i < r@.len() ==> (#[trigger] r@[i]).0 == i,
{
    let capacity = rows * cols;
    let mut out: Vec<SiteId> = Vec::new();
    let mut i: usize = 0;
    while i < capacity
        invariant
            i <= capacity,
            capacity <= u32::MAX,
            out@.len() == i,
            forall|q: int| 0 <= q < i ==> (#[trigger] out@[q]).0 == q,
        decreases capacity - i,
    {
        out.push(SiteId(i as u32));
        i += 1;
    }
    out
}

/// `order` lists each of the `cap` sites exactly once.
pub open spec fn is_site_permutation(order: Seq<SiteId>, cap: int) -> bool {
    &&& order.len() == cap
    &&& forall|k: int| 0 <= k < order.len() ==> (#[trigger] order[k]).0 < cap
    &&& forall|k1: int, k2: int| 0 <= k1 < k2 < order.len() ==> order[k1] != order[k2]
}

/// Site `x` appears in `order`.
pub open spec fn site_listed(order: Seq<SiteId>, x: int) -> bool {
    exists|k: int| 0 <= k < order.len() && (#[trigger] order[k]).0 == x
}

/// A duplicate-free list of sites below `cap` holding every site has length `cap`.
proof fn lemma_site_perm_len(order: Seq<SiteId>, cap: int)
    requires
        0 <= cap,
        forall|k: int| 0 <= k < order.len() ==> (#[trigger] order[k]).0 < cap,
        forall|k1: int, k2: int| 0 <= k1 < k2 < order.len() ==> order[k1] != order[k2],
        forall|x: int| 0 <= x < cap ==> #[trigger] site_listed(order, x),
    ensures
        order.len() == cap,
{
    let ints = order.map_values(|s: SiteId| s.0 as int);
    assert forall|k1: int, k2: int| 0 <= k1 < k2 < ints.len() implies ints[k1] != ints[k2] by {
        assert(order[k1] != order[k2]);
    }
    assert forall|q: int| 0 <= q < cap implies ints.contains(q) by {
        assert(site_listed(order, q));
        let k = choose|k: int| 0 <= k < order.len() && (#[trigger] order[k]).0 == q;
        assert(ints[k] == q);
    }
    crate::compaction::lemma_perm_len(ints, cap);
}

/// The cell `s` steps from `p` along leg `k` (legs turn right, down, left,
/// up, in that order).
pub open spec fn spiral_step(p: (int, int), k: int, s: int) -> (int, int) {
    if k % 4 == 0 {
        (p.0, p.1 + s)
    } else if k % 4 == 1 {
        (p.0 + s, p.1)
    } else if k % 4 == 2 {
        (p.0, p.1 - s)
    } else {
        (p.0 - s, p.1)
    }
}

/// The cells of the spiral walk from `start` over its first `legs` legs:
/// leg `k` has `k / 2 + 1` steps.
pub open spec fn spiral_walk(start: (int, int), legs: nat) -> Seq<(int, int)>
    decreases legs,
{
    if legs == 0 {
        seq![start]
    } else {
        let w = spiral_walk(start, (legs - 1) as nat);
        let k = legs - 1;
        w + Seq::new((k / 2 + 1) as nat, |s: int| spiral_step(w.last(), k, s + 1))
    }
}

/// The sites of the in-grid cells of `pts`, each at its first visit.
pub open spec fn first_visits(pts: Seq<(int, int)>, rows: int, cols: int) -> Seq<SiteId>
    decreases pts.len(),
{
    if pts.len() == 0 {
        seq![]
    } else {
        let prev = first_visits(pts.drop_last(), rows, cols);
        let p = pts.last();
        if 0 <= p.0 < rows && 0 <= p.1 < cols && !site_listed(prev, p.0 * cols + p.1) {
            prev.push(SiteId((p.0 * cols + p.1) as u32))
        } else {
            prev
        }
    }
}

/// The sites below `upto` that `listed` misses, in increasing order.
pub open spec fn missed_sites(listed: Seq<SiteId>, upto: int) -> Seq<SiteId>
    decreases upto,
{
    if upto <= 0 {
        seq![]
    } else {
        missed_sites(listed, upto - 1) + if site_listed(listed, upto - 1) {
            Seq::<SiteId>::empty()
        } else {
            seq![SiteId((upto - 1) as u32)]
        }
    }
}

proof fn lemma_spiral_walk_prefix(start: (int, int), a: nat, b: nat)
    requires
        a <= b,
    ensures
        spiral_walk(start, a).len() <= spiral_walk(start, b).len(),
        spiral_walk(start, b).take(spiral_walk(start, a).len() as int) == spiral_walk(start, a),
    decreases b,
{
    if a < b {
        lemma_spiral_walk_prefix(start, a, (b - 1) as nat);
        let w = spiral_walk(start, (b - 1) as nat);
        assert(spiral_walk(start, b).take(w.len() as int) =~= w);
        assert(spiral_walk(start, b).take(spiral_walk(start, a).len() as int)
            =~= w.take(spiral_walk(start, a).len() as int));
    } else {
        assert(spiral_walk(start, b).take(spiral_walk(start, b).len() as int) =~= spiral_walk(start, b));
    }
}

/// Once every site is listed, more cells list nothing new.
proof fn lemma_first_visits_full(pts: Seq<(int, int)>, more: Seq<(int, int)>, rows: int, cols: int)
    requires
        forall|x: int| 0 <= x < rows * cols ==> #[trigger] site_listed(first_visits(pts, rows, cols), x),
    ensures
        first_visits(pts + more, rows, cols) == first_visits(pts, rows, cols),
    decreases more.len(),
{
    if more.len() == 0 {
        assert(pts + more =~= pts);
    } else {
        let init = more.drop_last();
        lemma_first_visits_full(pts, init, rows, cols);
        assert((pts + more).drop_last() =~= pts + init);
        let p = more.last();
        if 0 <= p.0 < rows && 0 <= p.1 < cols {
            assert(0 <= p.0 * cols + p.1 < rows * cols) by (nonlinear_arith)
                requires
                    0 <= p.0 < rows,
                    0 <= p.1 < cols,
            ;
            assert(site_listed(first_visits(pts, rows, cols), p.0 * cols + p.1));
        }
    }
}

proof fn lemma_first_visits_empty_grid(pts: Seq<(int, int)>, rows: int, cols: int)
    requires
        rows <= 0 || cols <= 0,
    ensures
        first_visits(pts, rows, cols) == Seq::<SiteId>::empty(),
    decreases pts.len(),
{
    if pts.len() > 0 {
        lemma_first_visits_empty_grid(pts.drop_last(), rows, cols);
    }
}

/// Visit cell `(rr, cc)` if it lies inside the grid and was not visited yet.
fn mark_cell(rr: i64, cc: i64, rows: usize, cols: usize, visited: &mut Vec<bool>, order: &mut Vec<SiteId>)
    requires
        rows * cols <= u32::MAX,
        old(visited)@.len() == rows * cols,
        forall|k: int| 0 <= k < old(order)@.len() ==> (#[trigger] old(order)@[k]).0 < rows * cols,
        forall|k1: int, k2: int| 0 <= k1 < k2 < old(order)@.len() ==> old(order)@[k1] != old(order)@[k2],
        forall|x: int| 0 <= x < rows * cols ==> (#[trigger] old(visited)@[x] <==> exists|k: int|
            0 <= k < old(order)@.len() && old(order)@[k].0 == x),
    ensures
        final(visited)@.len() == rows * cols,
        forall|k: int| 0 <= k < final(order)@.len() ==> (#[trigger] final(order)@[k]).0 < rows * cols,
        forall|k1: int, k2: int| 0 <= k1 < k2 < final(order)@.len() ==> final(order)@[k1] != final(order)@[k2],
        forall|x: int| 0 <= x < rows * cols ==> (#[trigger] final(visited)@[x] <==> exists|k: int|
            0 <= k < final(order)@.len() && final(order)@[k].0 == x),
        final(order)@.len() <= old(order)@.len() + 1,
        old(order)@.len() <= final(order)@.len(),
        forall|k: int| 0 <= k < old(order)@.len() ==> final(order)@[k] == old(order)@[k],
        0 <= rr < rows && 0 <= cc < cols && !old(visited)@[rr * cols + cc]
            ==> final(order)@ == old(order)@.push(SiteId((rr * cols + cc) as u32)),
        !(0 <= rr < rows && 0 <= cc < cols && !old(visited)@[rr * cols + cc]) ==> final(order)@ == old(order)@,
{
    if rr >= 0 && cc >= 0 && (rr as u64) < rows as u64 && (cc as u64) < cols as u64 {
        let r = rr as usize;
        let c = cc as usize;
        proof {
            assert(r * cols + c < rows * cols) by (nonlinear_arith)
                requires
                    r < rows,
                    c < cols,
            ;
        }
        let idx = r * cols + c;
        if !visited[idx] {
            let ghost oo = order@;
            visited.set(idx, true);
            order.push(SiteId(idx as u32));
            proof {
                assert forall|x: int| 0 <= x < rows * cols implies (#[trigger] visited@[x] <==> exists|k: int|
                    0 <= k < order@.len() && order@[k].0 == x) by {
                    if x == idx {
                        assert(order@[oo.len() as int].0 == x);
                    } else if exists|k: int| 0 <= k < order@.len() && order@[k].0 == x {
                        let k = choose|k: int| 0 <= k < order@.len() && order@[k].0 == x;
                        assert(k < oo.len());
                    } else if visited@[x] {
                        let k = choose|k: int| 0 <= k < oo.len() && oo[k].0 == x;
                        assert(order@[k].0 == x);
                    }
                }
                assert forall|k1: int, k2: int| 0 <= k1 < k2 < order@.len() implies order@[k1] != order@[k2] by {
                    if k2 == oo.len() {
                        if order@[k1] == order@[k2] {
                            assert(oo[k1].0 == idx);
                        }
                    }
                }
            }
        }
    }
}

/// A duplicate-free list of at least `cap` sites below `cap` lists every site.
proof fn lemma_full_list_covers(order: Seq<SiteId>, cap: int)
    requires
        0 <= cap,
        order.len() >= cap,
        forall|k: int| 0 <= k < order.len() ==> (#[trigger] order[k]).0 < cap,
        forall|k1: int, k2: int| 0 <= k1 < k2 < order.len() ==> order[k1] != order[k2],
    ensures
        forall|x: int| 0 <= x < cap ==> #[trigger] site_listed(order, x),
{
    let ints = order.map_values(|s: SiteId| s.0 as int);
    assert(ints.no_duplicates()) by {
        assert forall|k1: int, k2: int| 0 <= k1 < ints.len() && 0 <= k2 < ints.len() && k1 != k2 implies ints[k1] != ints[k2] by {
            if k1 < k2 {
                assert(order[k1] != order[k2]);
            } else {
                assert(order[k2] != order[k1]);
            }
        }
    }
    ints.unique_seq_to_set();
    let range = vstd::set_lib::set_int_range(0, cap);
    vstd::set_lib::lemma_int_range(0, cap);
    assert(ints.to_set().subset_of(range)) by {
        assert forall|v: int| ints.to_set().contains(v) implies range.contains(v) by {
            let k = choose|k: int| 0 <= k < ints.len() && ints[k] == v;
            assert(order[k].0 < cap);
        }
    }
    vstd::set_lib::lemma_len_subset(ints.to_set(), range);
    vstd::set_lib::lemma_subset_equality(ints.to_set(), range);
    assert forall|x: int| 0 <= x < cap implies #[trigger] site_listed(order, x) by {
        assert(range.contains(x));
        assert(ints.to_set().contains(x));
        let k = choose|k: int| 0 <= k < ints.len() && ints[k] == x;
        assert(order[k].0 == x);
    }
}

/// Ulam-style spiral from the grid center over a `rows x cols` grid: the
/// in-grid cells of the walk (legs of 1, 1, 2, 2, 3, 3, ... steps turning
/// right, down, left, up) over `2 (rows + cols) + 4` legs, each at its first
/// visit, then the cells it missed in row-major order. Every site appears
/// exactly once and the center comes first.
#[verifier::rlimit(40)]
#[verifier::spinoff_prover]
pub fn spiral_sites(rows: usize, cols: usize) -> (r: Vec<SiteId>)
    requires
        rows * cols <= u32::MAX,
        (rows + cols) * 2 + 4 <= usize::MAX,
    ensures
        r@ == ({
            let f = first_visits(spiral_walk(((rows / 2) as int, (cols / 2) as int), ((rows + cols) * 2 + 4) as nat),
                rows as int, cols as int);
            f + missed_sites(f, (rows * cols) as int)
        }),
        is_site_permutation(r@, rows * cols),
        rows * cols > 0 ==> r@[0].0 == (rows / 2) * cols + cols / 2,
{
    let ghost center: (int, int) = ((rows / 2) as int, (cols / 2) as int);
    let ghost full = spiral_walk(center, ((rows + cols) * 2 + 4) as nat);
    let ghost fv = first_visits(full, rows as int, cols as int);
    if rows == 0 || cols == 0 {
        proof {
            assert(rows * cols == 0) by (nonlinear_arith)
                requires
                    rows == 0 || cols == 0,
            ;
            lemma_first_visits_empty_grid(full, rows as int, cols as int);
            assert(Seq::<SiteId>::empty() =~= fv + missed_sites(fv, 0));
        }
        return Vec::new();
    }
    let capacity = rows * cols;
    let mut visited: Vec<bool> = Vec::new();
    let mut z: usize = 0;
    while z < capacity
        invariant
            z <= capacity,
            visited@.len() == z,
            forall|q: int| 0 <= q < z ==> !visited@[q],
        decreases capacity - z,
    {
        visited.push(false);
        z += 1;
    }
    let mut order: Vec<SiteId> = Vec::new();
    let mut r: i64 = (rows / 2) as i64;
    let mut c: i64 = (cols / 2) as i64;
    let mut dir: usize = 0;
    let mut leg_len: i64 = 1;
    proof {
        assert((rows / 2) * cols + cols / 2 < rows * cols) by (nonlinear_arith)
            requires
                rows >= 1,
                cols >= 1,
        ;
        assert(!visited@[(rows / 2) * cols + cols / 2]);
        assert(rows + cols <= rows * cols + 1) by (nonlinear_arith)
            requires
                rows >= 1,
                cols >= 1,
        ;
    }
    mark_cell(r, c, rows, cols, &mut visited, &mut order);
    let ghost mut trace: Seq<(int, int)> = seq![center];
    proof {
        assert(order@.len() == 1);
        assert(trace.drop_last() =~= Seq::<(int, int)>::empty());
        assert(first_visits(trace.drop_last(), rows as int, cols as int) =~= Seq::<SiteId>::empty());
        assert(order@ =~= first_visits(trace, rows as int, cols as int));
        assert(trace =~= spiral_walk(center, 0));
    }
    let ghost first = order@[0];
    // Grow until every cell is visited or the spiral has swept far past the grid.
    let max_legs = (rows + cols) * 2 + 4;
    let mut legs: usize = 0;
    while order.len() < capacity && legs < max_legs
        invariant
            capacity == rows * cols,
            capacity <= u32::MAX,
            rows + cols <= 0x1_0000_0001,
            max_legs == (rows + cols) * 2 + 4,
            visited@.len() == capacity,
            dir < 4,
            dir == legs % 4,
            legs % 2 == 0,
            legs <= max_legs,
            leg_len == legs / 2 + 1,
            legs % 4 == 0 ==> r == (rows / 2) as int - (legs as int) / 4 && c == (cols / 2) as int - (legs as int) / 4,
            legs % 4 == 2 ==> r == (rows / 2) as int + (legs as int) / 4 + 1 && c == (cols / 2) as int + (legs as int) / 4 + 1,
            trace == spiral_walk(center, legs as nat),
            trace.last() == (r as int, c as int),
            order@ == first_visits(trace, rows as int, cols as int),
            order@.len() >= 1,
            order@[0] == first,
            forall|k: int| 0 <= k < order@.len() ==> (#[trigger] order@[k]).0 < capacity,
            forall|k1: int, k2: int| 0 <= k1 < k2 < order@.len() ==> order@[k1] != order@[k2],
            forall|x: int| 0 <= x < capacity ==> (#[trigger] visited@[x] <==> exists|k: int|
                0 <= k < order@.len() && order@[k].0 == x),
        decreases max_legs + 2 - legs,
    {
        let mut turn: usize = 0;
        let ghost legs0 = legs;
        while turn < 2
            invariant
                legs == legs0 + turn,
                legs0 % 2 == 0,
                legs0 < max_legs,
                capacity == rows * cols,
                capacity <= u32::MAX,
                rows + cols <= 0x1_0000_0001,
                max_legs == (rows + cols) * 2 + 4,
                visited@.len() == capacity,
                dir < 4,
                dir == legs % 4,
                turn <= 2,
                leg_len == legs0 / 2 + 1,
                turn == 0 && legs0 % 4 == 0 ==> r == (rows / 2) as int - (legs0 as int) / 4 && c == (cols / 2) as int - (legs0 as int) / 4,
                turn == 0 && legs0 % 4 == 2 ==> r == (rows / 2) as int + (legs0 as int) / 4 + 1 && c == (cols / 2) as int + (legs0 as int) / 4 + 1,
                turn == 1 && legs0 % 4 == 0 ==> r == (rows / 2) as int - (legs0 as int) / 4 && c == (cols / 2) as int + (legs0 as int) / 4 + 1,
                turn == 1 && legs0 % 4 == 2 ==> r == (rows / 2) as int + (legs0 as int) / 4 + 1 && c == (cols / 2) as int - (legs0 as int) / 4 - 1,
                turn == 2 && legs0 % 4 == 0 ==> r == (rows / 2) as int + (legs0 as int) / 4 + 1 && c == (cols / 2) as int + (legs0 as int) / 4 + 1,
                turn == 2 && legs0 % 4 == 2 ==> r == (rows / 2) as int - (legs0 as int) / 4 - 1 && c == (cols / 2) as int - (legs0 as int) / 4 - 1,
                trace == spiral_walk(center, legs as nat),
                trace.last() == (r as int, c as int),
                order@ == first_visits(trace, rows as int, cols as int),
                order@.len() >= 1,
                order@[0] == first,
                forall|k: int| 0 <= k < order@.len() ==> (#[trigger] order@[k]).0 < capacity,
                forall|k1: int, k2: int| 0 <= k1 < k2 < order@.len() ==> order@[k1] != order@[k2],
                forall|x: int| 0 <= x < capacity ==> (#[trigger] visited@[x] <==> exists|k: int|
                    0 <= k < order@.len() && order@[k].0 == x),
            decreases 2 - turn,
        {
            let ghost r0 = r;
            let ghost c0 = c;
            let ghost w = trace;
            proof {
                assert(leg_len == (legs as int) / 2 + 1);
            }
            let mut step: i64 = 0;
            while step < leg_len
                invariant
                    capacity == rows * cols,
                    capacity <= u32::MAX,
                    rows + cols <= 0x1_0000_0001,
                    visited@.len() == capacity,
                    dir < 4,
                    dir == legs % 4,
                    turn < 2,
                    legs == legs0 + turn,
                    legs0 < max_legs,
                    max_legs == (rows + cols) * 2 + 4,
                    leg_len == (legs as int) / 2 + 1,
                    0 <= step <= leg_len,
                    -(rows as int) - (legs as int) - 2 <= r0 <= (rows as int) + (legs as int) + 2,
                    -(cols as int) - (legs as int) - 2 <= c0 <= (cols as int) + (legs as int) + 2,
                    dir == 0 ==> r == r0 && c == c0 + step,
                    dir == 1 ==> r == r0 + step && c == c0,
                    dir == 2 ==> r == r0 && c == c0 - step,
                    dir == 3 ==> r == r0 - step && c == c0,
                    w == spiral_walk(center, legs as nat),
                    w.last() == (r0 as int, c0 as int),
                    trace == w + Seq::new(step as nat, |q: int| spiral_step(w.last(), legs as int, q + 1)),
                    (r as int, c as int) == spiral_step(w.last(), legs as int, step as int),
                    order@ == first_visits(trace, rows as int, cols as int),
                    order@.len() >= 1,
                    order@[0] == first,
                    forall|k: int| 0 <= k < order@.len() ==> (#[trigger] order@[k]).0 < capacity,
                    forall|k1: int, k2: int| 0 <= k1 < k2 < order@.len() ==> order@[k1] != order@[k2],
                    forall|x: int| 0 <= x < capacity ==> (#[trigger] visited@[x] <==> exists|k: int|
                        0 <= k < order@.len() && order@[k].0 == x),
                decreases leg_len - step,
            {
                if dir == 0 {
                    c = c + 1;
                } else if dir == 1 {
                    r = r + 1;
                } else if dir == 2 {
                    c = c - 1;
                } else {
                    r = r - 1;
                }
                let ghost old_order = order@;
                let ghost old_visited = visited@;
                mark_cell(r, c, rows, cols, &mut visited, &mut order);
                proof {
                    let pt = (r as int, c as int);
                    assert(pt == spiral_step(w.last(), legs as int, step + 1));
                    let t2 = trace.push(pt);
                    assert(t2 =~= w + Seq::new((step + 1) as nat, |q: int| spiral_step(w.last(), legs as int, q + 1)));
                    assert(t2.drop_last() =~= trace);
                    if 0 <= r < rows && 0 <= c < cols {
                        assert(0 <= r * cols + c < rows * cols) by (nonlinear_arith)
                            requires
                                0 <= r < rows,
                                0 <= c < cols,
                        ;
                        assert(old_visited[r * cols + c] <==> site_listed(old_order, r * cols + c));
                    }
                    trace = t2;
                }
                step += 1;
            }
            proof {
                assert(trace =~= spiral_walk(center, (legs + 1) as nat));
            }
            dir = (dir + 1) % 4;
            legs += 1;
            turn += 1;
        }
        leg_len += 1;
    }
    proof {
        let mx = ((rows + cols) * 2 + 4) as nat;
        lemma_spiral_walk_prefix(center, legs as nat, mx);
        let rest = full.skip(trace.len() as int);
        assert(full =~= trace + rest);
        if order@.len() >= capacity {
            lemma_full_list_covers(order@, capacity as int);
            lemma_first_visits_full(trace, rest, rows as int, cols as int);
        } else {
            assert(legs == max_legs);
            assert(trace == full);
            assert(trace + rest =~= trace);
        }
        assert(order@ == fv);
        assert(fv + missed_sites(fv, 0) =~= fv);
    }
    // Cells the spiral never reached, in row-major order.
    let mut i: usize = 0;
    while i < capacity
        invariant
            capacity == rows * cols,
            capacity <= u32::MAX,
            visited@.len() == capacity,
            i <= capacity,
            order@ == fv + missed_sites(fv, i as int),
            forall|k: int| 0 <= k < fv.len() ==> (#[trigger] fv[k]).0 < capacity,
            order@.len() >= 1,
            order@[0] == first,
            forall|k: int| 0 <= k < order@.len() ==> (#[trigger] order@[k]).0 < capacity,
            forall|k1: int, k2: int| 0 <= k1 < k2 < order@.len() ==> order@[k1] != order@[k2],
            forall|x: int| 0 <= x < capacity ==> (#[trigger] visited@[x] <==> exists|k: int|
                0 <= k < order@.len() && order@[k].0 == x),
            forall|x: int| 0 <= x < i ==> #[trigger] site_listed(order@, x),
            forall|k: int| 0 <= k < missed_sites(fv, i as int).len() ==> (#[trigger] missed_sites(fv, i as int)[k]).0 < i,
        decreases capacity - i,
    {
        let ghost oo = order@;
        proof {
            let ms = missed_sites(fv, i as int);
            assert(visited@[i as int] <==> site_listed(fv, i as int)) by {
                if visited@[i as int] {
                    let k = choose|k: int| 0 <= k < oo.len() && oo[k].0 == i;
                    if k >= fv.len() {
                        assert(oo[k] == ms[k - fv.len()]);
                    } else {
                        assert(oo[k] == fv[k]);
                    }
                }
                if site_listed(fv, i as int) {
                    let k = choose|k: int| 0 <= k < fv.len() && (#[trigger] fv[k]).0 == i;
                    assert(oo[k] == fv[k]);
                }
            }
        }
        if !visited[i] {
            visited.set(i, true);
            order.push(SiteId(i as u32));
            proof {
                assert(order@ =~= fv + missed_sites(fv, i + 1));
                assert forall|x: int| 0 <= x < capacity implies (#[trigger] visited@[x] <==> exists|k: int|
                    0 <= k < order@.len() && order@[k].0 == x) by {
                    if x == i {
                        assert(order@[oo.len() as int].0 == x);
                    } else if exists|k: int| 0 <= k < order@.len() && order@[k].0 == x {
                        let k = choose|k: int| 0 <= k < order@.len() && order@[k].0 == x;
                        assert(k < oo.len());
                    } else if visited@[x] {
                        let k = choose|k: int| 0 <= k < oo.len() && oo[k].0 == x;
                        assert(order@[k].0 == x);
                    }
                }
                assert forall|k1: int, k2: int| 0 <= k1 < k2 < order@.len() implies order@[k1] != order@[k2] by {
                    if k2 == oo.len() {
                        if order@[k1] == order@[k2] {
                            assert(oo[k1].0 == i);
                        }
                    }
                }
                assert forall|x: int| 0 <= x < i + 1 implies #[trigger] site_listed(order@, x) by {
                    if x == i {
                        assert(order@[oo.len() as int].0 == x);
                    } else {
                        assert(site_listed(oo, x));
                        let k = choose|k: int| 0 <= k < oo.len() && (#[trigger] oo[k]).0 == x;
                        assert(order@[k].0 == x);
                    }
                }
            }
        } else {
            proof {
                assert(order@ =~= fv + missed_sites(fv, i + 1));
                assert(visited@[i as int]);
                assert forall|x: int| 0 <= x < i + 1 implies #[trigger] site_listed(order@, x) by {
                    if x == i {
                        assert(visited@[x]);
                    }
                }
            }
        }
        i += 1;
    }
    proof {
        lemma_site_perm_len(order@, capacity as int);
    }
    order
}

/// The bindings place each vertex's atom exactly once: no site or atom is
/// bound twice, there is one binding per vertex, and the bound atoms are
/// exactly the vertices' atoms (atom `q` for vertex `q`).
pub open spec fn bindings_valid(vertices: Seq<LogicalQubitId>, bindings: Seq<AtomBinding>) -> bool {
    &&& forall|i: int, j: int| 0 <= i < j < bindings.len() ==> (#[trigger] bindings[i]).trap.site_of() != (#[trigger] bindings[j]).trap.site_of()
    &&& forall|i: int, j: int| 0 <= i < j < bindings.len() ==> (#[trigger] bindings[i]).atom != (#[trigger] bindings[j]).atom
    &&& bindings.len() == vertices.len()
    &&& forall|a: u32| #![trigger bound_atom(bindings, a)] #![trigger vertex_atom(vertices, a)]
        bound_atom(bindings, a) <==> vertex_atom(vertices, a)
}

/// Some binding binds atom `a`.
pub open spec fn bound_atom(bindings: Seq<AtomBinding>, a: u32) -> bool {
    exists|i: int| 0 <= i < bindings.len() && #[trigger] bindings[i].atom.0 == a
}

/// Atom `a` is some vertex's atom.
pub open spec fn vertex_atom(vertices: Seq<LogicalQubitId>, a: u32) -> bool {
    exists|v: int| 0 <= v < vertices.len() && #[trigger] vertices[v].0 == a
}

/// Whether the layout's bindings place every vertex exactly once.
pub fn validate_bindings(vertices: &Vec<LogicalQubitId>, bindings: &Vec<AtomBinding>) -> (b: bool)
    ensures
        b == bindings_valid(vertices@, bindings@),
{
    let mut sites_used: std::collections::BTreeSet<u32> = std::collections::BTreeSet::new();
    let mut atoms_used: std::collections::BTreeSet<u32> = std::collections::BTreeSet::new();
    let mut k: usize = 0;
    while k < bindings.len()
        invariant
            k <= bindings@.len(),
            forall|i: int, j: int| 0 <= i < j < k ==> (#[trigger] bindings@[i]).trap.site_of() != (#[trigger] bindings@[j]).trap.site_of(),
            forall|i: int, j: int| 0 <= i < j < k ==> (#[trigger] bindings@[i]).atom != (#[trigger] bindings@[j]).atom,
            forall|s: u32| #[trigger] sites_used@.contains(s) <==> exists|i: int| 0 <= i < k && #[trigger] bindings@[i].trap.site_of().0 == s,
            forall|a: u32| #[trigger] atoms_used@.contains(a) <==> exists|i: int| 0 <= i < k && #[trigger] bindings@[i].atom.0 == a,
        decreases bindings.len() - k,
    {
        let b = &bindings[k];
        let site = b.trap.site();
        if sites_used.contains(&site.0) {
            proof {
                let i = choose|i: int| 0 <= i < k && #[trigger] bindings@[i].trap.site_of().0 == site.0;
                assert(bindings@[i].trap.site_of() == bindings@[k as int].trap.site_of());
            }
            return false;
        }
        if atoms_used.contains(&b.atom.0) {
            proof {
                let i = choose|i: int| 0 <= i < k && #[trigger] bindings@[i].atom.0 == b.atom.0;
                assert(bindings@[i].atom == bindings@[k as int].atom);
            }
            return false;
        }
        sites_used.insert(site.0);
        atoms_used.insert(b.atom.0);
        proof {
            assert forall|s: u32| #[trigger] sites_used@.contains(s) <==> exists|i: int| 0 <= i < k + 1 && #[trigger] bindings@[i].trap.site_of().0 == s by {
                if s == site.0 {
                    assert(bindings@[k as int].trap.site_of().0 == s);
                }
            }
            assert forall|a: u32| #[trigger] atoms_used@.contains(a) <==> exists|i: int| 0 <= i < k + 1 && #[trigger] bindings@[i].atom.0 == a by {
                if a == b.atom.0 {
                    assert(bindings@[k as int].atom.0 == a);
                }
            }
            assert forall|i: int, j: int| 0 <= i < j < k + 1 implies (#[trigger] bindings@[i]).trap.site_of() != (#[trigger] bindings@[j]).trap.site_of() by {
                if j == k && bindings@[i].trap.site_of() == bindings@[j].trap.site_of() {
                    assert(sites_used@.contains(bindings@[i].trap.site_of().0)) by {
                        assert(bindings@[i].trap.site_of().0 == site.0);
                    }
                }
            }
            assert forall|i: int, j: int| 0 <= i < j < k + 1 implies (#[trigger] bindings@[i]).atom != (#[trigger] bindings@[j]).atom by {
                if j == k && bindings@[i].atom == bindings@[j].atom {
                    assert(bindings@[i].atom.0 == b.atom.0);
                }
            }
        }
        k += 1;
    }
    if bindings.len() != vertices.len() {
        return false;
    }
    // Every vertex's atom is bound.
    let mut v: usize = 0;
    while v < vertices.len()
        invariant
            v <= vertices@.len(),
            forall|a: u32| #[trigger] atoms_used@.contains(a) <==> exists|i: int| 0 <= i < bindings@.len() && #[trigger] bindings@[i].atom.0 == a,
            forall|w: int| 0 <= w < v ==> atoms_used@.contains(#[trigger] vertices@[w].0),
        decreases vertices.len() - v,
    {
        if !atoms_used.contains(&vertices[v].0) {
            proof {
                let q = vertices@[v as int].0;
                assert(vertex_atom(vertices@, q));
                assert(!bound_atom(bindings@, q));
            }
            return false;
        }
        v += 1;
    }
    // Every bound atom is a vertex's atom.
    let mut i: usize = 0;
    while i < bindings.len()
        invariant
            i <= bindings@.len(),
            forall|t: int| 0 <= t < i ==> exists|w: int| 0 <= w < vertices@.len() && #[trigger] vertices@[w].0 == (#[trigger] bindings@[t]).atom.0,
        decreases bindings.len() - i,
    {
        let a = bindings[i].atom.0;
        let mut w: usize = 0;
        let mut found = false;
        while w < vertices.len()
            invariant
                w <= vertices@.len(),
                found ==> exists|x: int| 0 <= x < vertices@.len() && #[trigger] vertices@[x].0 == a,
                !found ==> forall|x: int| 0 <= x < w ==> #[trigger] vertices@[x].0 != a,
            decreases vertices.len() - w,
        {
            if vertices[w].0 == a {
                found = true;
            }
            w += 1;
        }
        if !found {
            proof {
                assert(bindings@[i as int].atom.0 == a);
                assert(bound_atom(bindings@, a));
                assert(!vertex_atom(vertices@, a));
            }
            return false;
        }
        i += 1;
    }
    proof {
        assert forall|a: u32| #![trigger bound_atom(bindings@, a)] #![trigger vertex_atom(vertices@, a)]
            bound_atom(bindings@, a) <==> vertex_atom(vertices@, a) by {
            if exists|i: int| 0 <= i < bindings@.len() && #[trigger] bindings@[i].atom.0 == a {
                let t = choose|i: int| 0 <= i < bindings@.len() && #[trigger] bindings@[i].atom.0 == a;
                assert(exists|w: int| 0 <= w < vertices@.len() && #[trigger] vertices@[w].0 == bindings@[t].atom.0);
            }
            if exists|v: int| 0 <= v < vertices@.len() && #[trigger] vertices@[v].0 == a {
                let v = choose|v: int| 0 <= v < vertices@.len() && #[trigger] vertices@[v].0 == a;
                assert(atoms_used@.contains(vertices@[v].0));
            }
        }
    }
    true
}

} // verus!
