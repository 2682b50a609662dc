//! Exact state-preparation scheduling as graph colouring: the conflict graph
//! of CZ gates, the search over stage counts that a solver drives, the greedy
//! fallback colouring, and the stage layers built from a colouring.

use vstd::prelude::*;

use crate::ids::AtomId;
use crate::schedule::{NeutralAtomAction, ScheduleLayer};

verus! {

/// Default solver timeout in milliseconds.
pub const DEFAULT_SOLVER_TIMEOUT_MS: u64 = 5000;

/// How a schedule's optimality is reported.
#[derive(Clone, Copy, Debug, PartialEq, Eq, Structural)]
pub enum ScheduleOptimality {
    /// Solver-proven optimum.
    Exact,
    /// Heuristic fallback.
    Heuristic,
}

/// Whether an exact solver run produced a proven optimum or fell back.
#[derive(Clone, Copy, Debug, PartialEq, Eq, Structural)]
pub enum SolverOutcome {
    /// The solver proved the solution optimal within the time budget.
    Proven,
    /// The solver gave up (timeout); the caller fell back to a heuristic.
    Timeout,
}

impl Default for SolverOutcome {
    fn default() -> (r: Self)
        ensures
            r == SolverOutcome::Proven,
    {
        SolverOutcome::Proven
    }
}

impl SolverOutcome {
    /// The report's optimality label for this outcome.
    pub fn to_schedule_optimality(self) -> (r: ScheduleOptimality)
        ensures
            r == (match self {
                SolverOutcome::Proven => ScheduleOptimality::Exact,
                SolverOutcome::Timeout => ScheduleOptimality::Heuristic,
            }),
    {
        match self {
            SolverOutcome::Proven => ScheduleOptimality::Exact,
            SolverOutcome::Timeout => ScheduleOptimality::Heuristic,
        }
    }
}

/// Tunable parameters for exact state-prep scheduling.
#[derive(Clone, Copy, Debug)]
pub struct ExactStatePrepParams {
    /// Solver timeout (milliseconds) per satisfiability check.
    pub timeout_ms: u64,
}

impl Default for ExactStatePrepParams {
    fn default() -> (r: Self)
        ensures
            r.timeout_ms == DEFAULT_SOLVER_TIMEOUT_MS,
    {
        ExactStatePrepParams { timeout_ms: DEFAULT_SOLVER_TIMEOUT_MS }
    }
}

/// Result of exact state-prep scheduling.
#[derive(Clone, Debug)]
pub struct ExactStatePrepResult {
    /// One entangle layer per non-empty stage.
    pub layers: Vec<ScheduleLayer>,
    /// Number of stages (movement rounds).
    pub stage_count: usize,
    pub outcome: SolverOutcome,
}

/// One CZ gate: the two atoms it entangles.
#[derive(Clone, Copy, Debug, PartialEq, Eq, Structural)]
pub struct CzGate {
    pub a: AtomId,
    pub b: AtomId,
}

/// Two gates share an atom and so cannot run in the same stage.
pub open spec fn gates_share(g: CzGate, h: CzGate) -> bool {
    g.a == h.a || g.a == h.b || g.b == h.a || g.b == h.b
}

/// `adj` lists exactly the conflicting pairs `(i, j)`, `i < j`, of `gates`.
pub open spec fn is_conflict_list(gates: Seq<CzGate>, adj: Seq<(usize, usize)>) -> bool {
    &&& forall|k: int| 0 <= k < adj.len() ==> (#[trigger] adj[k]).0 < adj[k].1 < gates.len()
    &&& forall|i: usize, j: usize| i < j < gates.len() ==> (gates_share(gates[i as int], gates[j as int])
        <==> #[trigger] adj.contains((i, j)))
}

/// Whether two gates share an atom.
fn share_exec(g: &CzGate, h: &CzGate) -> (b: bool)
    ensures
        b == gates_share(*g, *h),
{
    g.a.0 == h.a.0 || g.a.0 == h.b.0 || g.b.0 == h.a.0 || g.b.0 == h.b.0
}

/// The conflict graph: every pair of gates `(i, j)`, `i < j`, that share an
/// atom, in lexicographic order.
pub fn conflict_adjacency(gates: &[CzGate]) -> (adj: Vec<(usize, usize)>)
    ensures
        is_conflict_list(gates@, adj@),
        forall|a: int, b: int| 0 <= a < b < adj@.len() ==> crate::graph::pair_lt(adj@[a], adj@[b]),
{
    let n = gates.len();
    let mut adj: Vec<(usize, usize)> = Vec::new();
    let mut i: usize = 0;
    while i < n
        invariant
            n == gates@.len(),
            i <= n,
            forall|k: int| 0 <= k < adj@.len() ==> (#[trigger] adj@[k]).0 < adj@[k].1 < n && adj@[k].0 < i,
            forall|p: usize, q: usize| p < q < n && p < i ==> (gates_share(gates@[p as int], gates@[q as int])
                <==> #[trigger] adj@.contains((p, q))),
            forall|a: int, b: int| 0 <= a < b < adj@.len() ==> crate::graph::pair_lt(adj@[a], adj@[b]),
        decreases n - i,
    {
        let mut j: usize = i + 1;
        while j < n
            invariant
                n == gates@.len(),
                i < n,
                i + 1 <= j <= n,
                forall|k: int| 0 <= k < adj@.len() ==> (#[trigger] adj@[k]).0 < adj@[k].1 < n
                    && (adj@[k].0 < i || (adj@[k].0 == i && adj@[k].1 < j)),
                forall|p: usize, q: usize| p < q < n && (p < i || (p == i && q < j)) ==> (gates_share(gates@[p as int], gates@[q as int])
                    <==> #[trigger] adj@.contains((p, q))),
                forall|a: int, b: int| 0 <= a < b < adj@.len() ==> crate::graph::pair_lt(adj@[a], adj@[b]),
            decreases n - j,
        {
            let ghost old_adj = adj@;
            if share_exec(&gates[i], &gates[j]) {
                adj.push((i, j));
            }
            proof {
                assert forall|p: usize, q: usize| p < q < n && (p < i || (p == i && q < j + 1)) implies (gates_share(gates@[p as int], gates@[q as int])
                    <==> #[trigger] adj@.contains((p, q))) by {
                    if adj@.contains((p, q)) && !old_adj.contains((p, q)) {
                        assert(adj@.last() == (p, q));
                    }
                    if old_adj.contains((p, q)) {
                        let t = choose|t: int| 0 <= t < old_adj.len() && old_adj[t] == (p, q);
                        assert(adj@[t] == old_adj[t]);
                    }
                    if p == i && q == j && gates_share(gates@[p as int], gates@[q as int]) {
                        assert(adj@[adj@.len() - 1] == (p, q));
                    }
                }
            }
            j += 1;
        }
        i += 1;
    }
    adj
}

/// `colors` is the greedy colouring of `gates` in index order: every gate
/// gets the least non-negative colour that no earlier conflicting gate has.
pub open spec fn greedy_colouring_ok(gates: Seq<CzGate>, colors: Seq<i64>) -> bool {
    &&& colors.len() == gates.len()
    &&& forall|v: int| 0 <= v < colors.len() ==> 0 <= #[trigger] colors[v] <= v
    &&& forall|u: int, v: int| 0 <= u < v < gates.len() && gates_share(gates[u], gates[v]) ==> colors[u] != colors[v]
    &&& forall|v: int, c: int| 0 <= v < gates.len() && 0 <= c < colors[v] ==> #[trigger] colour_taken_before(gates, colors, v, c)
}

/// Some earlier gate conflicting with gate `v` has colour `c`.
pub open spec fn colour_taken_before(gates: Seq<CzGate>, colors: Seq<i64>, v: int, c: int) -> bool {
    exists|u: int| 0 <= u < v && gates_share(gates[u], gates[v]) && #[trigger] colors[u] == c
}

/// Whether the list holds `x`.
fn contains_i64(v: &Vec<i64>, x: i64) -> (b: bool)
    ensures
        b == v@.contains(x),
{
    let mut k: usize = 0;
    while k < v.len()
        invariant
            k <= v@.len(),
            forall|q: int| 0 <= q < k ==> v@[q] != x,
        decreases v.len() - k,
    {
        if v[k] == x {
            return true;
        }
        k += 1;
    }
    false
}

/// The least non-negative value not in `used`, or `limit` if every value
/// below `limit` is in `used`.
fn least_absent(used: &Vec<i64>, limit: i64) -> (c: i64)
    requires
        0 <= limit,
    ensures
        0 <= c <= limit,
        c < limit ==> !used@.contains(c),
        forall|d: i64| 0 <= d < c ==> #[trigger] used@.contains(d),
{
    let mut c: i64 = 0;
    while c < limit && contains_i64(used, c)
        invariant
            0 <= c <= limit,
            forall|d: i64| 0 <= d < c ==> #[trigger] used@.contains(d),
        decreases limit - c,
    {
        c += 1;
    }
    c
}

/// Greedy colouring: each gate in turn takes the least colour unused by its
/// already coloured conflicting gates. A proper colouring.
pub fn greedy_colouring(gates: &[CzGate], adj: &[(usize, usize)]) -> (colors: Vec<i64>)
    requires
        is_conflict_list(gates@, adj@),
        gates@.len() < i64::MAX,
    ensures
        greedy_colouring_ok(gates@, colors@),
{
    let n = gates.len();
    let mut colors: Vec<i64> = Vec::new();
    let mut v: usize = 0;
    while v < n
        invariant
            n == gates@.len(),
            n < i64::MAX,
            is_conflict_list(gates@, adj@),
            v <= n,
            colors@.len() == v,
            forall|q: int| 0 <= q < v ==> 0 <= #[trigger] colors@[q] <= q,
            forall|u: int, w: int| 0 <= u < w < v && gates_share(gates@[u], gates@[w]) ==> colors@[u] != colors@[w],
            forall|w: int, c: int| 0 <= w < v && 0 <= c < colors@[w] ==> #[trigger] colour_taken_before(gates@, colors@, w, c),
        decreases n - v,
    {
        // Colours of the already coloured gates conflicting with gate `v`.
        let mut used: Vec<i64> = Vec::new();
        let mut k: usize = 0;
        while k < adj.len()
            invariant
                n == gates@.len(),
                is_conflict_list(gates@, adj@),
                v < n,
                colors@.len() == v,
                forall|q: int| 0 <= q < v ==> 0 <= #[trigger] colors@[q] <= q,
                k <= adj@.len(),
                forall|x: i64| #[trigger] used@.contains(x) ==> exists|u: int|
                    0 <= u < v && gates_share(gates@[u], gates@[v as int]) && colors@[u] == x,
                forall|u: int| 0 <= u < v && #[trigger] adj@.subrange(0, k as int).contains((u as usize, v))
                    ==> used@.contains(colors@[u]),
            decreases adj.len() - k,
        {
            let (i, j) = adj[k];
            let ghost old_used = used@;
            if j == v && i < v {
                used.push(colors[i]);
                proof {
                    assert(adj@.contains((i, j)));
                }
            }
            proof {
                assert(adj@.subrange(0, k + 1) =~= adj@.subrange(0, k as int).push(adj@[k as int]));
                assert forall|x: i64| #[trigger] used@.contains(x) implies exists|u: int|
                    0 <= u < v && gates_share(gates@[u], gates@[v as int]) && colors@[u] == x by {
                    if !old_used.contains(x) {
                        assert(used@.last() == x);
                        assert(adj@.contains((i, j)));
                        assert(gates_share(gates@[i as int], gates@[v as int]));
                    }
                }
                assert forall|u: int| 0 <= u < v && #[trigger] adj@.subrange(0, k + 1).contains((u as usize, v))
                    implies used@.contains(colors@[u]) by {
                    if adj@.subrange(0, k as int).contains((u as usize, v)) {
                        let t = choose|t: int| 0 <= t < old_used.len() && old_used[t] == colors@[u];
                        assert(used@[t] == colors@[u]);
                    } else {
                        assert(adj@[k as int] == (u as usize, v));
                        assert(used@.last() == colors@[u]);
                    }
                }
            }
            k += 1;
        }
        proof {
            assert(adj@.subrange(0, adj@.len() as int) =~= adj@);
        }
        let c = least_absent(&used, v as i64);
        proof {
            // Every colour in `used` is that of an earlier gate, so below `v`.
            if c == v as i64 && used@.contains(c) {
                let u = choose|u: int| 0 <= u < v && gates_share(gates@[u], gates@[v as int]) && colors@[u] == c;
                assert(colors@[u] <= u);
            }
        }
        let ghost old_colors = colors@;
        colors.push(c);
        proof {
            assert forall|u: int, w: int| 0 <= u < w < v + 1 && gates_share(gates@[u], gates@[w]) implies colors@[u] != colors@[w] by {
                if w == v {
                    assert(adj@.contains((u as usize, v)));
                    assert(adj@.subrange(0, adj@.len() as int).contains((u as usize, v)));
                    assert(used@.contains(colors@[u]));
                }
            }
            assert forall|w: int, d: int| 0 <= w < v + 1 && 0 <= d < colors@[w] implies #[trigger] colour_taken_before(gates@, colors@, w, d) by {
                if w == v {
                    assert(used@.contains(d as i64));
                    let u = choose|u: int| 0 <= u < v && gates_share(gates@[u], gates@[v as int]) && colors@[u] == d as i64;
                    assert(colors@[u] == d);
                } else {
                    assert(colour_taken_before(gates@, old_colors, w, d));
                    let u = choose|u: int| 0 <= u < w && gates_share(gates@[u], gates@[w]) && #[trigger] old_colors[u] == d;
                    assert(colors@[u] == d);
                }
            }
        }
        v += 1;
    }
    colors
}


/// The answer to one "is there a colouring with `k` stages" query.
#[derive(Clone, Debug)]
pub enum KColourResult {
    /// A colouring, one stage per gate.
    Sat(Vec<i64>),
    /// No colouring with `k` stages exists.
    Unsat,
    /// The solver gave up.
    Unknown,
}

/// Why exact scheduling produced no schedule.
#[derive(Clone, Copy, Debug, PartialEq, Eq, Structural)]
pub enum ExactError {
    /// Every stage count up to the number of gates was refused.
    NoColouring,
}

/// The search for the least stage count: the next `k` to query, the best
/// colouring so far, whether the solver gave up, and whether it is over.
#[derive(Clone, Debug)]
pub struct ExactSearch {
    pub n: usize,
    pub k: usize,
    pub best: Option<Vec<i64>>,
    pub timed_out: bool,
    pub done: bool,
}

/// `a` assigns every one of `n` gates a stage below `bound`.
pub open spec fn stages_in_range(a: Seq<i64>, n: int, bound: int) -> bool {
    a.len() == n && forall|i: int| 0 <= i < n ==> 0 <= #[trigger] a[i] < bound
}

impl ExactSearch {
    /// Every colouring held assigns each gate a stage below the number of gates.
    pub open spec fn wf(&self) -> bool {
        &&& self.k >= 1
        &&& (self.best matches Some(a) ==> stages_in_range(a@, self.n as int, self.n as int))
    }

    /// The stage count to query next, if the search goes on.
    pub fn next_k(&self) -> (r: Option<usize>)
        ensures
            r == (if !self.done && 1 <= self.k <= self.n { Some(self.k) } else { None::<usize> }),
    {
        if !self.done && 1 <= self.k && self.k <= self.n {
            Some(self.k)
        } else {
            None
        }
    }

    /// Take the answer to the query for `self.k`: a colouring moves the
    /// search one stage down (or ends it at one stage); a refusal ends it once
    /// a colouring is known and otherwise moves one stage up; a solver that
    /// gives up ends it, with the greedy colouring if none is known.
    pub fn on_result(&mut self, gates: &[CzGate], adj: &[(usize, usize)], r: KColourResult)
        requires
            old(self).wf(),
            !old(self).done,
            1 <= old(self).k <= old(self).n,
            old(self).n == gates@.len(),
            gates@.len() < i64::MAX,
            gates@.len() < usize::MAX,
            is_conflict_list(gates@, adj@),
            r matches KColourResult::Sat(a) ==> stages_in_range(a@, gates@.len() as int, old(self).k as int),
        ensures
            final(self).wf(),
            final(self).n == old(self).n,
            match r {
                KColourResult::Sat(a) => {
                    &&& final(self).best == Some(a)
                    &&& final(self).timed_out == old(self).timed_out
                    &&& if old(self).k == 1 { final(self).done && final(self).k == 1 } else { !final(self).done && final(self).k == old(self).k - 1 }
                },
                KColourResult::Unsat => {
                    &&& final(self).best == old(self).best
                    &&& final(self).timed_out == old(self).timed_out
                    &&& if old(self).best is Some { final(self).done && final(self).k == old(self).k } else { !final(self).done && final(self).k == old(self).k + 1 }
                },
                KColourResult::Unknown => {
                    &&& final(self).timed_out
                    &&& final(self).done
                    &&& final(self).k == old(self).k
                    &&& (old(self).best is Some ==> final(self).best == old(self).best)
                    &&& (old(self).best is None ==> (final(self).best matches Some(c) && greedy_colouring_ok(gates@, c@)))
                },
            },
    {
        match r {
            KColourResult::Sat(a) => {
                self.best = Some(a);
                if self.k == 1 {
                    self.done = true;
                } else {
                    self.k = self.k - 1;
                }
            },
            KColourResult::Unsat => {
                if self.best.is_some() {
                    self.done = true;
                } else {
                    self.k = self.k + 1;
                }
            },
            KColourResult::Unknown => {
                self.timed_out = true;
                if self.best.is_none() {
                    let colors = greedy_colouring(gates, adj);
                    self.best = Some(colors);
                }
                self.done = true;
            },
        }
    }
}

/// Start the search: the conflict graph, and a first query at the largest
/// conflict degree (at least 1).
pub fn exact_search_start(gates: &[CzGate]) -> (r: (ExactSearch, Vec<(usize, usize)>))
    requires
        gates@.len() < i64::MAX,
    ensures
        r.0.wf(),
        r.0.n == gates@.len(),
        r.0.best is None,
        !r.0.timed_out,
        r.0.done == (gates@.len() == 0),
        is_conflict_list(gates@, r.1@),
        forall|a: int, b: int| 0 <= a < b < r.1@.len() ==> crate::graph::pair_lt(r.1@[a], r.1@[b]),
        gates@.len() > 0 ==> r.0.k == max_conflict_degree(gates@),
        r.0.k <= gates@.len() + 1,
{
    let n = gates.len();
    let adj = conflict_adjacency(gates);
    // Conflict degree of every gate: how many other gates share an atom with it.
    let mut degree: Vec<usize> = Vec::new();
    let mut p: usize = 0;
    while p < n
        invariant
            n == gates@.len(),
            p <= n,
            degree@.len() == p,
            forall|q: int| 0 <= q < p ==> #[trigger] degree@[q] == conflict_count(gates@, q, n as int),
            forall|q: int| 0 <= q < p ==> #[trigger] degree@[q] <= n,
        decreases n - p,
    {
        let mut d: usize = 0;
        let mut j: usize = 0;
        while j < n
            invariant
                n == gates@.len(),
                p < n,
                j <= n,
                d == conflict_count(gates@, p as int, j as int),
                d <= j,
            decreases n - j,
        {
            if j != p && share_exec(&gates[p], &gates[j]) {
                d += 1;
            }
            j += 1;
        }
        degree.push(d);
        p += 1;
    }
    let mut best: usize = 0;
    let mut q: usize = 0;
    while q < n
        invariant
            q <= n,
            degree@.len() == n,
            best <= n,
            forall|p: int| 0 <= p < n ==> #[trigger] degree@[p] <= n,
            forall|p: int| 0 <= p < q ==> degree@[p] <= best,
            best == 0 || exists|p: int| 0 <= p < q && degree@[p] == best,
        decreases n - q,
    {
        if degree[q] > best {
            best = degree[q];
        }
        q += 1;
    }
    let start_k = if best < 1 { 1 } else { best };
    let search = ExactSearch { n, k: start_k, best: None, timed_out: false, done: n == 0 };
    proof {
        if n > 0 {
            let ds = degree_seq(gates@);
            assert forall|p: int| 0 <= p < ds.len() implies 0 <= #[trigger] ds[p] <= best by {
                assert(degree@[p] <= best);
            }
            if best != 0 {
                let p = choose|p: int| 0 <= p < n && degree@[p] == best;
                assert(ds[p] == best);
            }
            lemma_max_of(ds, best as int);
        }
    }
    (search, adj)
}

/// How many gates among the first `m`, other than `q`, share an atom with gate `q`.
pub open spec fn conflict_count(gates: Seq<CzGate>, q: int, m: int) -> int
    decreases m,
{
    if m <= 0 {
        0
    } else {
        conflict_count(gates, q, m - 1) + (if m - 1 != q && gates_share(gates[q], gates[m - 1]) { 1int } else { 0 })
    }
}

/// Every gate's conflict degree.
pub open spec fn degree_seq(gates: Seq<CzGate>) -> Seq<int> {
    Seq::new(gates.len(), |q: int| conflict_count(gates, q, gates.len() as int))
}

/// The largest entry of `s`, or 0 when empty.
pub open spec fn seq_max(s: Seq<int>) -> int
    decreases s.len(),
{
    if s.len() == 0 {
        0
    } else {
        let m = seq_max(s.drop_last());
        if s.last() > m { s.last() } else { m }
    }
}

/// The first stage count queried: the largest conflict degree, at least 1.
pub open spec fn max_conflict_degree(gates: Seq<CzGate>) -> int {
    let m = seq_max(degree_seq(gates));
    if m < 1 { 1 } else { m }
}

/// A value bounding all entries and met by one of them (or 0 for an all-zero
/// or empty sequence of non-negative entries) is the maximum.
pub proof fn lemma_max_of(s: Seq<int>, b: int)
    requires
        0 <= b,
        forall|p: int| 0 <= p < s.len() ==> 0 <= #[trigger] s[p] <= b,
        b == 0 || exists|p: int| 0 <= p < s.len() && s[p] == b,
    ensures
        seq_max(s) == b || (b == 0 && seq_max(s) == 0),
    decreases s.len(),
{
    if s.len() > 0 {
        let t = s.drop_last();
        if b != 0 && s.last() != b {
            let p = choose|p: int| 0 <= p < s.len() && s[p] == b;
            assert(t[p] == b);
            lemma_max_of(t, b);
        } else if b != 0 {
            lemma_seq_max_bounded(t, b);
        } else {
            lemma_seq_max_bounded(t, 0);
        }
    }
}

/// The maximum of values in `[0, b]` is in `[0, b]`.
proof fn lemma_seq_max_bounded(s: Seq<int>, b: int)
    requires
        0 <= b,
        forall|p: int| 0 <= p < s.len() ==> 0 <= #[trigger] s[p] <= b,
    ensures
        0 <= seq_max(s) <= b,
    decreases s.len(),
{
    if s.len() > 0 {
        let t = s.drop_last();
        assert forall|p: int| 0 <= p < t.len() implies 0 <= #[trigger] t[p] <= b by {
            assert(t[p] == s[p]);
        }
        lemma_seq_max_bounded(t, b);
        assert(s.last() == s[s.len() - 1]);
    }
}

/// The entangle action of a CZ gate.
pub open spec fn gate_action(g: CzGate) -> NeutralAtomAction {
    NeutralAtomAction::Entangle2 { atoms: [g.a, g.b], duration_us: 1 }
}

/// The actions of the first `m` gates assigned stage `s`, in gate order.
pub open spec fn stage_actions(gates: Seq<CzGate>, stages: Seq<i64>, s: int, m: int) -> Seq<NeutralAtomAction>
    decreases m,
{
    if m <= 0 {
        seq![]
    } else if stages[m - 1] == s {
        stage_actions(gates, stages, s, m - 1).push(gate_action(gates[m - 1]))
    } else {
        stage_actions(gates, stages, s, m - 1)
    }
}

/// No two gates of the same stage share an atom.
pub open spec fn proper_stages(gates: Seq<CzGate>, stages: Seq<i64>) -> bool {
    forall|i: int, j: int| 0 <= i < j < gates.len() && gates_share(gates[i], gates[j]) ==> stages[i] != stages[j]
}

/// Every gate entangles two distinct atoms.
pub open spec fn gates_two_atoms(gates: Seq<CzGate>) -> bool {
    forall|i: int| 0 <= i < gates.len() ==> (#[trigger] gates[i]).a != gates[i].b
}

/// The layers of a stage assignment: one per stage below `stage_count`
/// that holds a gate, at cycle = stage, with that stage's gates as
/// entangles in gate order. Under a proper assignment of gates on two
/// distinct atoms each, no layer touches an atom twice.
pub fn layers_from_stages(gates: &[CzGate], stages: &Vec<i64>, stage_count: usize) -> (layers: Vec<ScheduleLayer>)
    requires
        stages@.len() == gates@.len(),
        stage_count <= u32::MAX,
    ensures
        forall|a: int, b: int| 0 <= a < b < layers@.len() ==> layers@[a].cycle < layers@[b].cycle,
        forall|t: int| 0 <= t < layers@.len() ==> {
            &&& (#[trigger] layers@[t]).cycle < stage_count
            &&& layers@[t].actions@ == stage_actions(gates@, stages@, layers@[t].cycle as int, gates@.len() as int)
            &&& layers@[t].actions@.len() > 0
        },
        forall|s: int| 0 <= s < stage_count && #[trigger] stage_actions(gates@, stages@, s, gates@.len() as int).len() > 0
            ==> exists|t: int| 0 <= t < layers@.len() && layers@[t].cycle == s,
        proper_stages(gates@, stages@) && gates_two_atoms(gates@) ==> forall|t: int| 0 <= t < layers@.len()
            ==> crate::schedule::conflict_free(#[trigger] layers@[t].actions@),
{
    let n = gates.len();
    let mut layers: Vec<ScheduleLayer> = Vec::new();
    let mut s: usize = 0;
    while s < stage_count
        invariant
            n == gates@.len(),
            stages@.len() == n,
            stage_count <= u32::MAX,
            s <= stage_count,
            forall|a: int, b: int| 0 <= a < b < layers@.len() ==> layers@[a].cycle < layers@[b].cycle,
            forall|t: int| 0 <= t < layers@.len() ==> {
                &&& (#[trigger] layers@[t]).cycle < s
                &&& layers@[t].actions@ == stage_actions(gates@, stages@, layers@[t].cycle as int, n as int)
                &&& layers@[t].actions@.len() > 0
            },
            forall|s2: int| 0 <= s2 < s && #[trigger] stage_actions(gates@, stages@, s2, n as int).len() > 0
                ==> exists|t: int| 0 <= t < layers@.len() && layers@[t].cycle == s2,
            proper_stages(gates@, stages@) && gates_two_atoms(gates@) ==> forall|t: int| 0 <= t < layers@.len()
                ==> crate::schedule::conflict_free(#[trigger] layers@[t].actions@),
        decreases stage_count - s,
    {
        let mut actions: Vec<NeutralAtomAction> = Vec::new();
        let mut i: usize = 0;
        while i < n
            invariant
                n == gates@.len(),
                stages@.len() == n,
                s < stage_count,
                stage_count <= u32::MAX,
                i <= n,
                actions@ == stage_actions(gates@, stages@, s as int, i as int),
                forall|x: u32| #[trigger] crate::schedule::flat_atoms(actions@).contains(x) <==> exists|j: int|
                    0 <= j < i && stages@[j] == s && (gates@[j].a.0 == x || gates@[j].b.0 == x),
                proper_stages(gates@, stages@) && gates_two_atoms(gates@) ==> crate::schedule::conflict_free(actions@),
            decreases n - i,
        {
            if stages[i] == s as i64 {
                let g = gates[i];
                let ghost old_acts = actions@;
                actions.push(NeutralAtomAction::Entangle2 { atoms: [g.a, g.b], duration_us: 1 });
                proof {
                    let act = NeutralAtomAction::Entangle2 { atoms: [g.a, g.b], duration_us: 1 };
                    assert(act == gate_action(gates@[i as int]));
                    assert(actions@.drop_last() =~= old_acts);
                    let fo = crate::schedule::flat_atoms(old_acts);
                    let fa = crate::schedule::flat_atoms(actions@);
                    assert(crate::schedule::action_atoms(act) =~= seq![g.a.0, g.b.0]);
                    assert(fa == fo + seq![g.a.0, g.b.0]);
                    assert forall|x: u32| #[trigger] fa.contains(x) <==> exists|j: int|
                        0 <= j < i + 1 && stages@[j] == s && (gates@[j].a.0 == x || gates@[j].b.0 == x) by {
                        if fa.contains(x) {
                            let t = choose|t: int| 0 <= t < fa.len() && fa[t] == x;
                            if t < fo.len() {
                                assert(fo[t] == x);
                                assert(fo.contains(x));
                            }
                        }
                        if exists|j: int| 0 <= j < i + 1 && stages@[j] == s && (gates@[j].a.0 == x || gates@[j].b.0 == x) {
                            let j = choose|j: int| 0 <= j < i + 1 && stages@[j] == s && (gates@[j].a.0 == x || gates@[j].b.0 == x);
                            if j < i {
                                assert(fo.contains(x));
                                let t = choose|t: int| 0 <= t < fo.len() && fo[t] == x;
                                assert(fa[t] == x);
                            } else if g.a.0 == x {
                                assert(fa[fo.len() as int] == x);
                            } else {
                                assert(fa[fo.len() as int + 1] == x);
                            }
                        }
                    }
                    if proper_stages(gates@, stages@) && gates_two_atoms(gates@) {
                        assert(gates@[i as int].a != gates@[i as int].b);
                        assert(g.a.0 != g.b.0);
                        assert forall|p: int, q: int| 0 <= p < fa.len() && 0 <= q < fa.len() && p != q implies fa[p] != fa[q] by {
                            if p >= fo.len() && q < fo.len() {
                                assert(fo.contains(fo[q]));
                                let j = choose|j: int| 0 <= j < i && stages@[j] == s && (gates@[j].a.0 == fo[q] || gates@[j].b.0 == fo[q]);
                                if fa[p] == fa[q] {
                                    assert(gates_share(gates@[j], gates@[i as int]));
                                }
                            } else if q >= fo.len() && p < fo.len() {
                                assert(fo.contains(fo[p]));
                                let j = choose|j: int| 0 <= j < i && stages@[j] == s && (gates@[j].a.0 == fo[p] || gates@[j].b.0 == fo[p]);
                                if fa[p] == fa[q] {
                                    assert(gates_share(gates@[j], gates@[i as int]));
                                }
                            } else if p < fo.len() && q < fo.len() {
                                assert(fo[p] != fo[q]);
                            }
                        }
                    }
                }
            }
            i += 1;
        }
        if actions.len() > 0 {
            let ghost old_layers = layers@;
            layers.push(ScheduleLayer { cycle: s as u32, actions });
            proof {
                assert forall|s2: int| 0 <= s2 < s + 1 && #[trigger] stage_actions(gates@, stages@, s2, n as int).len() > 0
                    implies exists|t: int| 0 <= t < layers@.len() && layers@[t].cycle == s2 by {
                    if s2 < s {
                        let t = choose|t: int| 0 <= t < old_layers.len() && old_layers[t].cycle == s2;
                        assert(layers@[t] == old_layers[t]);
                    } else {
                        assert(layers@[old_layers.len() as int].cycle == s2);
                    }
                }
            }
        } else {
            proof {
                assert forall|s2: int| 0 <= s2 < s + 1 && #[trigger] stage_actions(gates@, stages@, s2, n as int).len() > 0
                    implies exists|t: int| 0 <= t < layers@.len() && layers@[t].cycle == s2 by {
                    if s2 == s {
                        assert(false);
                    }
                }
            }
        }
        s += 1;
    }
    layers
}

/// The largest value of a non-empty list.
pub open spec fn max_stage(stages: Seq<i64>) -> int {
    seq_max(stages.map_values(|x: i64| x as int))
}

impl ExactSearch {
    /// The schedule the finished search yields: nothing for no gates; with no
    /// colouring, an error; otherwise the layers of the best colouring, with
    /// `max stage + 1` stages, labelled proven unless the solver gave up.
    pub fn finish(self, gates: &[CzGate]) -> (r: Result<ExactStatePrepResult, ExactError>)
        requires
            self.wf(),
            self.n == gates@.len(),
            gates@.len() <= u32::MAX,
        ensures
            gates@.len() == 0 ==> (r matches Ok(res) && res.layers@.len() == 0 && res.stage_count == 0
                && res.outcome == SolverOutcome::Proven),
            gates@.len() > 0 && self.best is None ==> r == Err::<ExactStatePrepResult, ExactError>(ExactError::NoColouring),
            gates@.len() > 0 && self.best is Some ==> (r matches Ok(res) && {
                let a = self.best->0@;
                &&& res.outcome == (if self.timed_out { SolverOutcome::Timeout } else { SolverOutcome::Proven })
                &&& res.stage_count == max_stage(a) + 1
                &&& forall|t: int| 0 <= t < res.layers@.len() ==> (#[trigger] res.layers@[t]).actions@
                    == stage_actions(gates@, a, res.layers@[t].cycle as int, gates@.len() as int)
                        && res.layers@[t].cycle < res.stage_count && res.layers@[t].actions@.len() > 0
                &&& forall|a1: int, a2: int| 0 <= a1 < a2 < res.layers@.len() ==> res.layers@[a1].cycle < res.layers@[a2].cycle
                &&& forall|s: int| 0 <= s < res.stage_count && #[trigger] stage_actions(gates@, a, s, gates@.len() as int).len() > 0
                    ==> exists|t: int| 0 <= t < res.layers@.len() && res.layers@[t].cycle == s
                &&& proper_stages(gates@, a) && gates_two_atoms(gates@) ==> forall|t: int| 0 <= t < res.layers@.len()
                    ==> crate::schedule::conflict_free(#[trigger] res.layers@[t].actions@)
            }),
    {
        let n = gates.len();
        if n == 0 {
            return Ok(ExactStatePrepResult { layers: Vec::new(), stage_count: 0, outcome: SolverOutcome::Proven });
        }
        let outcome = if self.timed_out { SolverOutcome::Timeout } else { SolverOutcome::Proven };
        let stages = match self.best {
            Some(a) => a,
            None => {
                return Err(ExactError::NoColouring);
            },
        };
        let mut max: i64 = 0;
        let mut i: usize = 0;
        proof {
            assert(stages@.map_values(|x: i64| x as int).take(0) =~= Seq::<int>::empty());
        }
        while i < stages.len()
            invariant
                stages@.len() == n,
                n > 0,
                stages_in_range(stages@, n as int, n as int),
                i <= n,
                0 <= max < n,
                max == seq_max(stages@.map_values(|x: i64| x as int).take(i as int)),
            decreases n - i,
        {
            proof {
                let ms = stages@.map_values(|x: i64| x as int);
                assert(ms.take(i + 1).drop_last() =~= ms.take(i as int));
                assert(ms.take(i + 1).last() == stages@[i as int]);
            }
            if stages[i] > max {
                max = stages[i];
            }
            i += 1;
        }
        proof {
            let ms = stages@.map_values(|x: i64| x as int);
            assert(ms.take(n as int) =~= ms);
        }
        let stage_count = (max + 1) as usize;
        let layers = layers_from_stages(gates, &stages, stage_count);
        proof {
            assert(stages@ == self.best->0@);
            assert(stage_count == max_stage(stages@) + 1);
            let a = stages@;
            assert(outcome == (if self.timed_out { SolverOutcome::Timeout } else { SolverOutcome::Proven }));
            assert(forall|t: int| 0 <= t < layers@.len() ==> (#[trigger] layers@[t]).actions@
                    == stage_actions(gates@, a, layers@[t].cycle as int, gates@.len() as int)
                        && layers@[t].cycle < stage_count && layers@[t].actions@.len() > 0);
            assert(forall|s: int| 0 <= s < stage_count && #[trigger] stage_actions(gates@, a, s, gates@.len() as int).len() > 0
                    ==> exists|t: int| 0 <= t < layers@.len() && layers@[t].cycle == s);
        }
        let res = ExactStatePrepResult { layers, stage_count, outcome };
        proof {
            let a = self.best->0@;
            assert(res.stage_count == max_stage(a) + 1);
            assert(forall|a1: int, a2: int| 0 <= a1 < a2 < res.layers@.len() ==> res.layers@[a1].cycle < res.layers@[a2].cycle);
            assert(proper_stages(gates@, a) && gates_two_atoms(gates@) ==> forall|t: int| 0 <= t < res.layers@.len()
                    ==> crate::schedule::conflict_free(#[trigger] res.layers@[t].actions@));
        }
        Ok(res)
    }
}

/// A solver for the question "can the gates run in `k` stages".
pub trait StageColouringSolver {
    /// Look, within `timeout_ms` milliseconds, for a stage in `0..k` for
    /// every gate such that the two gates of every pair in `adj` get
    /// different stages.
    fn try_k_colouring(&mut self, gates: &[CzGate], adj: &[(usize, usize)], k: usize, timeout_ms: u64) -> KColourResult;
}

/// `a` gives every gate a stage below `k`, and conflicting gates different stages.
fn colouring_valid(gates: &[CzGate], adj: &[(usize, usize)], a: &Vec<i64>, k: usize) -> (b: bool)
    requires
        is_conflict_list(gates@, adj@),
        k <= gates@.len() < i64::MAX,
    ensures
        b == (stages_in_range(a@, gates@.len() as int, k as int) && proper_stages(gates@, a@)),
{
    let n = gates.len();
    if a.len() != n {
        return false;
    }
    let bound = k as i64;
    let mut i: usize = 0;
    while i < n
        invariant
            a@.len() == n,
            n == gates@.len(),
            bound == k,
            i <= n,
            forall|q: int| 0 <= q < i ==> 0 <= #[trigger] a@[q] < k,
        decreases n - i,
    {
        if a[i] < 0 || a[i] >= bound {
            return false;
        }
        i += 1;
    }
    let mut e: usize = 0;
    while e < adj.len()
        invariant
            a@.len() == n,
            n == gates@.len(),
            is_conflict_list(gates@, adj@),
            stages_in_range(a@, n as int, k as int),
            e <= adj@.len(),
            forall|q: int| 0 <= q < e ==> a@[(#[trigger] adj@[q]).0 as int] != a@[adj@[q].1 as int],
        decreases adj.len() - e,
    {
        let (x, y) = adj[e];
        if a[x] == a[y] {
            proof {
                assert(adj@.contains((x, y)));
                assert(gates_share(gates@[x as int], gates@[y as int]));
            }
            return false;
        }
        e += 1;
    }
    proof {
        assert forall|i: int, j: int| 0 <= i < j < gates@.len() && gates_share(gates@[i], gates@[j])
            implies a@[i] != a@[j] by {
            assert(adj@.contains((i as usize, j as usize)));
            let q = choose|q: int| 0 <= q < adj@.len() && adj@[q] == (i as usize, j as usize);
            assert(a@[(adj@[q]).0 as int] != a@[adj@[q].1 as int]);
        }
    }
    true
}

/// `res` holds the layers of the stage assignment `a`: a proper assignment
/// of every gate to a stage below the number of gates, `max stage + 1` stages,
/// and one layer per used stage, in stage order, with that stage's entangles.
pub open spec fn layers_of_stages(gates: Seq<CzGate>, a: Seq<i64>, res: ExactStatePrepResult) -> bool {
    &&& stages_in_range(a, gates.len() as int, gates.len() as int)
    &&& proper_stages(gates, a)
    &&& res.stage_count == max_stage(a) + 1
    &&& forall|t: int| 0 <= t < res.layers@.len() ==> (#[trigger] res.layers@[t]).actions@
            == stage_actions(gates, a, res.layers@[t].cycle as int, gates.len() as int)
            && res.layers@[t].cycle < res.stage_count && res.layers@[t].actions@.len() > 0
    &&& forall|a1: int, a2: int| 0 <= a1 < a2 < res.layers@.len() ==> res.layers@[a1].cycle < res.layers@[a2].cycle
    &&& forall|s: int| 0 <= s < res.stage_count && #[trigger] stage_actions(gates, a, s, gates.len() as int).len() > 0
            ==> exists|t: int| 0 <= t < res.layers@.len() && res.layers@[t].cycle == s
}

/// The search measure: it falls with every answer until the search ends.
spec fn search_measure(s: ExactSearch) -> int {
    if s.done {
        0
    } else if s.best is None {
        2 * s.n + 3 - s.k
    } else {
        s.k + 1
    }
}

/// Schedule CZ gates into as few stages as `solver` can show: start at the
/// largest conflict degree, step down while colourings are found and up while
/// none is known, and stop at the first refusal after a colouring or when the
/// solver gives up (then the greedy colouring stands in if nothing better is
/// known). An answer that is not a proper colouring in range counts as the
/// solver giving up. Whatever the solver answers, a schedule that comes back
/// is the layer stream of a proper stage assignment, so no layer touches an
/// atom twice when every gate has two distinct atoms.
pub fn schedule_exact<S: StageColouringSolver>(gates: &[CzGate], params: ExactStatePrepParams, solver: &mut S)
    -> (r: Result<ExactStatePrepResult, ExactError>)
    requires
        gates@.len() < u32::MAX,
    ensures
        gates@.len() == 0 ==> (r matches Ok(res) && res.layers@.len() == 0 && res.stage_count == 0
            && res.outcome == SolverOutcome::Proven),
        r matches Ok(res) ==> (gates@.len() > 0 ==> exists|a: Seq<i64>| #[trigger] layers_of_stages(gates@, a, res)),
        r matches Ok(res) ==> (gates_two_atoms(gates@) ==> forall|t: int| 0 <= t < res.layers@.len()
            ==> crate::schedule::conflict_free(#[trigger] res.layers@[t].actions@)),
{
    let (mut search, adj) = exact_search_start(gates);
    let mut next = search.next_k();
    while next.is_some()
        invariant
            search.wf(),
            search.n == gates@.len(),
            gates@.len() < u32::MAX,
            is_conflict_list(gates@, adj@),
            search.k <= search.n + 1,
            search.best matches Some(a) ==> proper_stages(gates@, a@),
            next == (if !search.done && 1 <= search.k <= search.n { Some(search.k) } else { None::<usize> }),
        decreases search_measure(search),
    {
        let k = next.unwrap();
        let answer = solver.try_k_colouring(gates, &adj, k, params.timeout_ms);
        let answer = match answer {
            KColourResult::Sat(a) => {
                if colouring_valid(gates, &adj, &a, k) {
                    KColourResult::Sat(a)
                } else {
                    KColourResult::Unknown
                }
            },
            other => other,
        };
        let ghost before = search;
        search.on_result(gates, &adj, answer);
        proof {
            if answer is Sat {
                assert(stages_in_range(search.best->0@, gates@.len() as int, gates@.len() as int));
            }
            assert(search_measure(search) < search_measure(before));
        }
        next = search.next_k();
    }
    let ghost best = search.best;
    let ghost timed_out = search.timed_out;
    let r = search.finish(gates);
    proof {
        if gates@.len() > 0 {
            if r is Ok {
                assert(layers_of_stages(gates@, best->0@, r->Ok_0));
            }
        }
    }
    r
}

/// Tunable parameters for exact placement.
#[derive(Clone, Copy, Debug)]
pub struct ExactPlacementParams {
    /// Solver timeout (milliseconds).
    pub timeout_ms: u64,
}

impl Default for ExactPlacementParams {
    fn default() -> (r: Self)
        ensures
            r.timeout_ms == DEFAULT_SOLVER_TIMEOUT_MS,
    {
        ExactPlacementParams { timeout_ms: DEFAULT_SOLVER_TIMEOUT_MS }
    }
}

/// `i` is the last ascent of `s`: `s[i] < s[i + 1]` and no later one.
pub open spec fn last_ascent(s: Seq<usize>, i: int) -> bool {
    &&& 0 <= i < s.len() - 1
    &&& s[i] < s[i + 1]
    &&& forall|k: int| i < k < s.len() - 1 ==> s[k] >= #[trigger] s[k + 1]
}

/// `j` is the last position after `i` holding a value above `s[i]`.
pub open spec fn last_above(s: Seq<usize>, i: int, j: int) -> bool {
    &&& i < j < s.len()
    &&& s[j] > s[i]
    &&& forall|k: int| j < k < s.len() ==> #[trigger] s[k] <= s[i]
}

/// The lexicographic successor step: swap positions `i` and `j`, then
/// reverse everything after `i`.
pub open spec fn successor_from(s: Seq<usize>, i: int, j: int) -> Seq<usize> {
    let w = s.update(i, s[j]).update(j, s[i]);
    w.take(i + 1) + w.skip(i + 1).reverse()
}

/// Step to the lexicographically next arrangement: find the last ascent
/// `i`, swap `arr[i]` with the last larger value after it, and reverse the
/// tail. Returns false, leaving `arr` unchanged, when no ascent exists.
pub fn next_permutation(arr: &mut Vec<usize>) -> (r: bool)
    ensures
        r == exists|i: int| last_ascent(old(arr)@, i),
        !r ==> final(arr)@ == old(arr)@,
        r ==> exists|i: int, j: int| last_ascent(old(arr)@, i) && last_above(old(arr)@, i, j)
            && final(arr)@ == successor_from(old(arr)@, i, j),
{
    let n = arr.len();
    let ghost s = arr@;
    if n < 2 {
        return false;
    }
    let mut i: usize = n - 2;
    while arr[i] >= arr[i + 1]
        invariant
            arr@ == s,
            n == s.len(),
            i < n - 1,
            forall|k: int| i < k < n - 1 ==> s[k] >= #[trigger] s[k + 1],
        decreases i,
    {
        if i == 0 {
            proof {
                assert forall|q: int| !last_ascent(s, q) by {
                    if last_ascent(s, q) {
                        assert(s[q] >= s[q + 1]);
                    }
                }
            }
            return false;
        }
        i -= 1;
    }
    proof {
        assert(last_ascent(s, i as int));
    }
    let mut j: usize = n - 1;
    while arr[j] <= arr[i]
        invariant
            arr@ == s,
            n == s.len(),
            i < j < n,
            s[i as int] < s[i + 1],
            forall|k: int| j < k < n ==> #[trigger] s[k] <= s[i as int],
        decreases j,
    {
        j -= 1;
    }
    proof {
        assert(last_above(s, i as int, j as int));
    }
    let vi = arr[i];
    let vj = arr[j];
    arr.set(i, vj);
    arr.set(j, vi);
    let ghost w = arr@;
    // Reverse arr[i + 1 ..].
    let mut lo: usize = i + 1;
    let mut hi: usize = n - 1;
    while lo < hi
        invariant
            i + 1 <= lo,
            hi < n,
            lo <= hi + 1,
            lo - (i + 1) == (n - 1) - hi,
            arr@.len() == n,
            w.len() == n,
            forall|k: int| 0 <= k <= i ==> arr@[k] == w[k],
            forall|k: int| lo <= k <= hi ==> arr@[k] == w[k],
            forall|k: int| i + 1 <= k < lo ==> arr@[k] == w[(n - 1) - (k - (i + 1))],
            forall|k: int| hi < k < n ==> arr@[k] == w[(i + 1) + ((n - 1) - k)],
        decreases hi + 1 - lo,
    {
        let a = arr[lo];
        let b = arr[hi];
        arr.set(lo, b);
        arr.set(hi, a);
        lo += 1;
        hi -= 1;
    }
    proof {
        let t = successor_from(s, i as int, j as int);
        assert(w == s.update(i as int, s[j as int]).update(j as int, s[i as int]));
        assert forall|k: int| 0 <= k < n implies arr@[k] == t[k] by {
            if k <= i {
            } else {
                assert(t[k] == w.skip(i + 1).reverse()[k - (i + 1)]);
                assert(w.skip(i + 1).reverse()[k - (i + 1)] == w.skip(i + 1)[(n - (i + 1)) - 1 - (k - (i + 1))]);
                if k < lo {
                } else if k > hi {
                } else {
                    assert(k == lo && lo == hi || lo > hi);
                }
            }
        }
        assert(arr@ =~= t);
    }
    true
}
} // verus!
