//! Stage timings and search diagnostics of the shared place / movement /
//! zoned backend stage, and their accumulation across the CNOT phases of a
//! QEC workload.

use vstd::prelude::*;

use crate::placement::PlacementStrategy;

verus! {

/// How the zoned scheduler places atoms.
#[derive(Clone, Copy, Debug, PartialEq, Eq, Structural)]
pub enum PlacerMode {
    RoutingAware,
    RoutingAgnostic,
}

/// Which routing-agnostic mechanism produced a zoned schedule.
#[derive(Clone, Copy, Debug, PartialEq, Eq, Structural)]
pub enum AgnosticPlacerMechanism {
    Matching,
    GreedyFallback,
}

/// Routing-aware search counters and configuration echoes.
#[derive(Clone, Copy, Debug)]
pub struct SearchDiagnostics {
    pub aware_search_completed_layers: Option<u64>,
    pub aware_search_budget_exceeded_layers: Option<u64>,
    pub aware_search_no_legal_assignment_layers: Option<u64>,
    pub aware_search_node_expansions: Option<u64>,
    pub aware_search_node_budget: Option<u64>,
    pub aware_search_pruning_window: Option<u64>,
    /// Iterative-deepening factor of the aware search, as `f64` bits.
    pub aware_search_deepening_factor: Option<u64>,
    /// Iterative-deepening value of the aware search, as `f64` bits.
    pub aware_search_deepening_value: Option<u64>,
    pub agnostic_placer_mechanism: Option<AgnosticPlacerMechanism>,
}

impl Default for SearchDiagnostics {
    fn default() -> (r: Self)
        ensures
            r.aware_search_completed_layers is None,
            r.aware_search_budget_exceeded_layers is None,
            r.aware_search_no_legal_assignment_layers is None,
            r.aware_search_node_expansions is None,
            r.aware_search_node_budget is None,
            r.aware_search_pruning_window is None,
            r.aware_search_deepening_factor is None,
            r.aware_search_deepening_value is None,
            r.agnostic_placer_mechanism is None,
    {
        SearchDiagnostics {
            aware_search_completed_layers: None,
            aware_search_budget_exceeded_layers: None,
            aware_search_no_legal_assignment_layers: None,
            aware_search_node_expansions: None,
            aware_search_node_budget: None,
            aware_search_pruning_window: None,
            aware_search_deepening_factor: None,
            aware_search_deepening_value: None,
            agnostic_placer_mechanism: None,
        }
    }
}

/// Timing and diagnostic info from the shared backend stage.
#[derive(Clone, Copy, Debug)]
pub struct BackendStageInfo {
    /// Placement wall time (flat AOD only).
    pub placement_us: Option<u64>,
    /// Movement planning wall time (flat AOD only).
    pub movement_us: Option<u64>,
    /// Zoned scheduling wall time (zoned only).
    pub zoned_schedule_us: Option<u64>,
    pub placer_mode: Option<PlacerMode>,
    pub placement_strategy: Option<PlacementStrategy>,
    pub search_diagnostics: SearchDiagnostics,
    pub aware_search_status: Option<(u64, u64)>,
    pub agnostic_placer_mechanism: Option<AgnosticPlacerMechanism>,
}

impl Default for BackendStageInfo {
    fn default() -> (r: Self)
        ensures
            r.placement_us is None,
            r.movement_us is None,
            r.zoned_schedule_us is None,
            r.placer_mode is None,
            r.placement_strategy is None,
            r.aware_search_status is None,
            r.agnostic_placer_mechanism is None,
            r.search_diagnostics.aware_search_completed_layers is None,
            r.search_diagnostics.aware_search_budget_exceeded_layers is None,
            r.search_diagnostics.aware_search_no_legal_assignment_layers is None,
            r.search_diagnostics.aware_search_node_expansions is None,
            r.search_diagnostics.aware_search_node_budget is None,
            r.search_diagnostics.aware_search_pruning_window is None,
            r.search_diagnostics.aware_search_deepening_factor is None,
            r.search_diagnostics.aware_search_deepening_value is None,
            r.search_diagnostics.agnostic_placer_mechanism is None,
    {
        BackendStageInfo {
            placement_us: None,
            movement_us: None,
            zoned_schedule_us: None,
            placer_mode: None,
            placement_strategy: None,
            search_diagnostics: SearchDiagnostics::default(),
            aware_search_status: None,
            agnostic_placer_mechanism: None,
        }
    }
}

/// Sum of two optional timings: absent when both are, saturating otherwise.
pub open spec fn sum_opt_spec(a: Option<u64>, b: Option<u64>) -> Option<u64> {
    match (a, b) {
        (None, None) => None,
        (None, Some(v)) => Some(v),
        (Some(v), None) => Some(v),
        (Some(x), Some(y)) => Some(if x + y > u64::MAX { u64::MAX } else { (x + y) as u64 }),
    }
}

/// Saturating-sum two optional timings: `None + None = None`, else `Some(a + b)`.
pub fn sum_opt_us(a: Option<u64>, b: Option<u64>) -> (r: Option<u64>)
    ensures
        r == sum_opt_spec(a, b),
{
    match (a, b) {
        (None, None) => None,
        (None, Some(v)) => Some(v),
        (Some(v), None) => Some(v),
        (Some(x), Some(y)) => Some(x.saturating_add(y)),
    }
}

/// Sum of two optional counters: absent when both are.
pub open spec fn add_opt_spec(a: Option<u64>, b: Option<u64>) -> Option<u64> {
    match (a, b) {
        (None, None) => None,
        (None, Some(v)) => Some(v),
        (Some(v), None) => Some(v),
        (Some(x), Some(y)) => Some((x + y) as u64),
    }
}

/// Both counters present sum within `u64`.
pub open spec fn add_opt_fits(a: Option<u64>, b: Option<u64>) -> bool {
    a is Some && b is Some ==> a->0 + b->0 <= u64::MAX
}

/// Saturating sum of two optional timings.
fn add_opt(a: Option<u64>, b: Option<u64>) -> (r: Option<u64>)
    requires
        add_opt_fits(a, b),
    ensures
        r == add_opt_spec(a, b),
{
    match (a, b) {
        (None, None) => None,
        (None, Some(v)) => Some(v),
        (Some(v), None) => Some(v),
        (Some(x), Some(y)) => Some(x + y),
    }
}

/// The first of two options that is present.
pub open spec fn first_some<T>(a: Option<T>, b: Option<T>) -> Option<T> {
    if a is Some { a } else { b }
}

/// Accumulated stage timings and diagnostics across all CNOT phases.
#[derive(Clone, Copy, Debug)]
pub struct QecStageAccumulator {
    pub schedule_from_graph_us: u64,
    pub entangling_layers_us: u64,
    pub placement_us: Option<u64>,
    pub movement_us: Option<u64>,
    pub zoned_schedule_us: Option<u64>,
    pub placer_mode: Option<PlacerMode>,
    pub placement_strategy: Option<PlacementStrategy>,
    pub search_diagnostics: SearchDiagnostics,
    pub aware_search_status: Option<(u64, u64)>,
    pub agnostic_placer_mechanism: Option<AgnosticPlacerMechanism>,
}

impl Default for QecStageAccumulator {
    fn default() -> (r: Self)
        ensures
            r.schedule_from_graph_us == 0,
            r.entangling_layers_us == 0,
            r.placement_us is None,
            r.movement_us is None,
            r.zoned_schedule_us is None,
            r.placer_mode is None,
            r.placement_strategy is None,
            r.aware_search_status is None,
            r.agnostic_placer_mechanism is None,
            r.search_diagnostics.aware_search_completed_layers is None,
            r.search_diagnostics.aware_search_budget_exceeded_layers is None,
            r.search_diagnostics.aware_search_no_legal_assignment_layers is None,
            r.search_diagnostics.aware_search_node_expansions is None,
            r.search_diagnostics.aware_search_node_budget is None,
            r.search_diagnostics.aware_search_pruning_window is None,
            r.search_diagnostics.aware_search_deepening_factor is None,
            r.search_diagnostics.aware_search_deepening_value is None,
            r.search_diagnostics.agnostic_placer_mechanism is None,
    {
        QecStageAccumulator {
            schedule_from_graph_us: 0,
            entangling_layers_us: 0,
            placement_us: None,
            movement_us: None,
            zoned_schedule_us: None,
            placer_mode: None,
            placement_strategy: None,
            search_diagnostics: SearchDiagnostics::default(),
            aware_search_status: None,
            agnostic_placer_mechanism: None,
        }
    }
}

/// Component-wise sum of the optional search status pairs.
pub open spec fn status_sum(a: Option<(u64, u64)>, b: Option<(u64, u64)>) -> Option<(u64, u64)> {
    match (a, b) {
        (None, None) => None,
        (None, Some(v)) => Some(v),
        (Some(v), None) => Some(v),
        (Some((a1, b1)), Some((a2, b2))) => Some(((a1 + a2) as u64, (b1 + b2) as u64)),
    }
}

/// The mechanism after one more phase: the first one seen, downgraded to
/// the greedy fallback once any phase fell back.
pub open spec fn mechanism_merge(acc: Option<AgnosticPlacerMechanism>, inc: Option<AgnosticPlacerMechanism>)
    -> Option<AgnosticPlacerMechanism> {
    match (acc, inc) {
        (None, v) => v,
        (Some(AgnosticPlacerMechanism::GreedyFallback), _) => acc,
        (_, Some(AgnosticPlacerMechanism::GreedyFallback)) => Some(AgnosticPlacerMechanism::GreedyFallback),
        _ => acc,
    }
}

/// The counters of one more phase fit in `u64` when added.
pub open spec fn phase_fits(acc: QecStageAccumulator, backend: BackendStageInfo) -> bool {
    let a = acc.search_diagnostics;
    let b = backend.search_diagnostics;
    &&& add_opt_fits(a.aware_search_completed_layers, b.aware_search_completed_layers)
    &&& add_opt_fits(a.aware_search_budget_exceeded_layers, b.aware_search_budget_exceeded_layers)
    &&& add_opt_fits(a.aware_search_no_legal_assignment_layers, b.aware_search_no_legal_assignment_layers)
    &&& add_opt_fits(a.aware_search_node_expansions, b.aware_search_node_expansions)
    &&& (acc.aware_search_status is Some && backend.aware_search_status is Some ==> {
        let x = acc.aware_search_status->0;
        let y = backend.aware_search_status->0;
        x.0 + y.0 <= u64::MAX && x.1 + y.1 <= u64::MAX
    })
}

impl QecStageAccumulator {
    /// Accumulate one phase's entangle and backend timing: timings add
    /// (saturating), counters add, configuration echoes keep the first value
    /// seen, and the placer mechanism is downgraded once a phase fell back.
    pub fn accumulate_phase(&mut self, schedule_from_graph_us: u64, entangling_layers_us: u64, backend: &BackendStageInfo)
        requires
            phase_fits(*old(self), *backend),
        ensures
            ({
                let o = *old(self);
                let f = *final(self);
                let od = o.search_diagnostics;
                let bd = backend.search_diagnostics;
                let fd = f.search_diagnostics;
                &&& f.schedule_from_graph_us == (if o.schedule_from_graph_us + schedule_from_graph_us > u64::MAX {
                    u64::MAX
                } else {
                    (o.schedule_from_graph_us + schedule_from_graph_us) as u64
                })
                &&& f.entangling_layers_us == (if o.entangling_layers_us + entangling_layers_us > u64::MAX {
                    u64::MAX
                } else {
                    (o.entangling_layers_us + entangling_layers_us) as u64
                })
                &&& f.placement_us == sum_opt_spec(o.placement_us, backend.placement_us)
                &&& f.movement_us == sum_opt_spec(o.movement_us, backend.movement_us)
                &&& f.zoned_schedule_us == sum_opt_spec(o.zoned_schedule_us, backend.zoned_schedule_us)
                &&& f.placer_mode == first_some(o.placer_mode, backend.placer_mode)
                &&& f.placement_strategy == first_some(o.placement_strategy, backend.placement_strategy)
                &&& fd.aware_search_completed_layers == add_opt_spec(od.aware_search_completed_layers, bd.aware_search_completed_layers)
                &&& fd.aware_search_budget_exceeded_layers == add_opt_spec(od.aware_search_budget_exceeded_layers, bd.aware_search_budget_exceeded_layers)
                &&& fd.aware_search_no_legal_assignment_layers == add_opt_spec(od.aware_search_no_legal_assignment_layers,
                    bd.aware_search_no_legal_assignment_layers)
                &&& fd.aware_search_node_expansions == add_opt_spec(od.aware_search_node_expansions, bd.aware_search_node_expansions)
                &&& fd.aware_search_node_budget == first_some(od.aware_search_node_budget, bd.aware_search_node_budget)
                &&& fd.aware_search_pruning_window == first_some(od.aware_search_pruning_window, bd.aware_search_pruning_window)
                &&& fd.aware_search_deepening_factor == first_some(od.aware_search_deepening_factor, bd.aware_search_deepening_factor)
                &&& fd.aware_search_deepening_value == first_some(od.aware_search_deepening_value, bd.aware_search_deepening_value)
                &&& fd.agnostic_placer_mechanism == od.agnostic_placer_mechanism
                &&& f.aware_search_status == status_sum(o.aware_search_status, backend.aware_search_status)
                &&& f.agnostic_placer_mechanism == mechanism_merge(o.agnostic_placer_mechanism, backend.agnostic_placer_mechanism)
            }),
    {
        self.schedule_from_graph_us = self.schedule_from_graph_us.saturating_add(schedule_from_graph_us);
        self.entangling_layers_us = self.entangling_layers_us.saturating_add(entangling_layers_us);
        self.placement_us = sum_opt_us(self.placement_us, backend.placement_us);
        self.movement_us = sum_opt_us(self.movement_us, backend.movement_us);
        self.zoned_schedule_us = sum_opt_us(self.zoned_schedule_us, backend.zoned_schedule_us);
        // Placer mode and placement strategy come from the options and are
        // the same in every phase: keep the first one seen.
        if self.placer_mode.is_none() {
            self.placer_mode = backend.placer_mode;
        }
        if self.placement_strategy.is_none() {
            self.placement_strategy = backend.placement_strategy;
        }
        // Search counters add up.
        let inc = backend.search_diagnostics;
        let mut acc = self.search_diagnostics;
        acc.aware_search_completed_layers = add_opt(acc.aware_search_completed_layers, inc.aware_search_completed_layers);
        acc.aware_search_budget_exceeded_layers = add_opt(
            acc.aware_search_budget_exceeded_layers,
            inc.aware_search_budget_exceeded_layers,
        );
        acc.aware_search_no_legal_assignment_layers = add_opt(
            acc.aware_search_no_legal_assignment_layers,
            inc.aware_search_no_legal_assignment_layers,
        );
        acc.aware_search_node_expansions = add_opt(acc.aware_search_node_expansions, inc.aware_search_node_expansions);
        // Node budget and pruning window are configuration echoes: keep the first.
        if acc.aware_search_node_budget.is_none() {
            acc.aware_search_node_budget = inc.aware_search_node_budget;
        }
        if acc.aware_search_deepening_factor.is_none() {
            acc.aware_search_deepening_factor = inc.aware_search_deepening_factor;
        }
        if acc.aware_search_deepening_value.is_none() {
            acc.aware_search_deepening_value = inc.aware_search_deepening_value;
        }
        if acc.aware_search_pruning_window.is_none() {
            acc.aware_search_pruning_window = inc.aware_search_pruning_window;
        }
        self.search_diagnostics = acc;
        // Search status adds component-wise.
        match (self.aware_search_status, backend.aware_search_status) {
            (None, None) => {},
            (None, Some(v)) => {
                self.aware_search_status = Some(v);
            },
            (Some(v), None) => {
                self.aware_search_status = Some(v);
            },
            (Some((a1, b1)), Some((a2, b2))) => {
                self.aware_search_status = Some((a1 + a2, b1 + b2));
            },
        }
        // The mechanism is a configuration echo, but a phase that fell back to
        // greedy downgrades a `Matching` aggregate.
        match (self.agnostic_placer_mechanism, backend.agnostic_placer_mechanism) {
            (None, v) => {
                self.agnostic_placer_mechanism = v;
            },
            (Some(AgnosticPlacerMechanism::GreedyFallback), _) => {},
            (_, Some(AgnosticPlacerMechanism::GreedyFallback)) => {
                self.agnostic_placer_mechanism = Some(AgnosticPlacerMechanism::GreedyFallback);
            },
            _ => {},
        }
    }
}


/// Counters the zoned scheduler reports for its placement search.
#[derive(Clone, Copy, Debug, PartialEq, Eq, Structural)]
pub struct ZonedSearchCounts {
    pub aware_search_completed_layers: u64,
    pub aware_search_budget_exceeded_layers: u64,
    pub aware_search_no_legal_assignment_layers: u64,
    pub aware_search_node_expansions: u64,
    pub agnostic_greedy_fallback_layers: u64,
}

/// Stage info of a zoned backend run: the placer used, its wall time, the
/// aware-search status (completed layers, and layers that fell back for a
/// budget or for want of a legal assignment), the search counters and the
/// configured budget and window, and, for the routing-agnostic placer,
/// whether any layer needed the greedy fallback.
pub fn zoned_stage_info(placer: PlacerMode, counts: ZonedSearchCounts, node_budget: u64, pruning_window: u64,
    deepening_factor_bits: u64, deepening_value_bits: u64, zoned_schedule_us: u64) -> (info: BackendStageInfo)
    requires
        counts.aware_search_budget_exceeded_layers + counts.aware_search_no_legal_assignment_layers <= u64::MAX,
    ensures
        ({
            let mechanism = if placer == PlacerMode::RoutingAgnostic {
                Some(if counts.agnostic_greedy_fallback_layers == 0 {
                    AgnosticPlacerMechanism::Matching
                } else {
                    AgnosticPlacerMechanism::GreedyFallback
                })
            } else {
                None
            };
            &&& info.placer_mode == Some(placer)
            &&& info.zoned_schedule_us == Some(zoned_schedule_us)
            &&& info.placement_us is None
            &&& info.movement_us is None
            &&& info.placement_strategy is None
            &&& info.aware_search_status == Some((counts.aware_search_completed_layers,
                (counts.aware_search_budget_exceeded_layers + counts.aware_search_no_legal_assignment_layers) as u64))
            &&& info.agnostic_placer_mechanism == mechanism
            &&& info.search_diagnostics == (SearchDiagnostics {
                aware_search_completed_layers: Some(counts.aware_search_completed_layers),
                aware_search_budget_exceeded_layers: Some(counts.aware_search_budget_exceeded_layers),
                aware_search_no_legal_assignment_layers: Some(counts.aware_search_no_legal_assignment_layers),
                aware_search_node_expansions: Some(counts.aware_search_node_expansions),
                aware_search_node_budget: Some(node_budget),
                aware_search_pruning_window: Some(pruning_window),
                aware_search_deepening_factor: Some(deepening_factor_bits),
                aware_search_deepening_value: Some(deepening_value_bits),
                agnostic_placer_mechanism: mechanism,
            })
        }),
{
    let mechanism = match placer {
        PlacerMode::RoutingAgnostic => Some(if counts.agnostic_greedy_fallback_layers == 0 {
            AgnosticPlacerMechanism::Matching
        } else {
            AgnosticPlacerMechanism::GreedyFallback
        }),
        PlacerMode::RoutingAware => None,
    };
    BackendStageInfo {
        placement_us: None,
        movement_us: None,
        zoned_schedule_us: Some(zoned_schedule_us),
        placer_mode: Some(placer),
        placement_strategy: None,
        search_diagnostics: SearchDiagnostics {
            aware_search_completed_layers: Some(counts.aware_search_completed_layers),
            aware_search_budget_exceeded_layers: Some(counts.aware_search_budget_exceeded_layers),
            aware_search_no_legal_assignment_layers: Some(counts.aware_search_no_legal_assignment_layers),
            aware_search_node_expansions: Some(counts.aware_search_node_expansions),
            aware_search_node_budget: Some(node_budget),
            aware_search_pruning_window: Some(pruning_window),
            aware_search_deepening_factor: Some(deepening_factor_bits),
            aware_search_deepening_value: Some(deepening_value_bits),
            agnostic_placer_mechanism: mechanism,
        },
        aware_search_status: Some((counts.aware_search_completed_layers,
            counts.aware_search_budget_exceeded_layers + counts.aware_search_no_legal_assignment_layers)),
        agnostic_placer_mechanism: mechanism,
    }
}

/// Stage info of a flat AOD backend run: the placement strategy, the
/// placement time when this run placed the atoms (only without a layout),
/// and the movement planning time.
pub fn flat_stage_info(strategy: PlacementStrategy, placement_us: Option<u64>, movement_us: u64) -> (info: BackendStageInfo)
    ensures
        info.placement_strategy == Some(strategy),
        info.placement_us == placement_us,
        info.movement_us == Some(movement_us),
        info.zoned_schedule_us is None,
        info.placer_mode is None,
        info.aware_search_status is None,
        info.agnostic_placer_mechanism is None,
        info.search_diagnostics.aware_search_completed_layers is None,
        info.search_diagnostics.aware_search_budget_exceeded_layers is None,
        info.search_diagnostics.aware_search_no_legal_assignment_layers is None,
        info.search_diagnostics.aware_search_node_expansions is None,
        info.search_diagnostics.aware_search_node_budget is None,
        info.search_diagnostics.aware_search_pruning_window is None,
        info.search_diagnostics.agnostic_placer_mechanism is None,
{
    let mut info = BackendStageInfo::default();
    info.placement_strategy = Some(strategy);
    info.placement_us = placement_us;
    info.movement_us = Some(movement_us);
    info
}

} // verus!
