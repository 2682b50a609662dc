use quon_na::placement::PlacementStrategy;
use quon_na::plan::{
    flat_stage_info, sum_opt_us, zoned_stage_info, AgnosticPlacerMechanism, BackendStageInfo, PlacerMode,
    QecStageAccumulator, ZonedSearchCounts,
};

#[test]
fn sum_opt_us_none_none() {
    assert_eq!(sum_opt_us(None, None), None);
}

#[test]
fn sum_opt_us_some_none() {
    assert_eq!(sum_opt_us(Some(5), None), Some(5));
    assert_eq!(sum_opt_us(None, Some(7)), Some(7));
}

#[test]
fn sum_opt_us_some_some() {
    assert_eq!(sum_opt_us(Some(3), Some(4)), Some(7));
}

#[test]
fn sum_opt_us_saturates() {
    assert_eq!(sum_opt_us(Some(u64::MAX), Some(1)), Some(u64::MAX));
}

#[test]
fn accumulator_accumulates() {
    let mut acc = QecStageAccumulator::default();
    let backend = BackendStageInfo {
        placement_us: Some(10),
        movement_us: Some(20),
        ..Default::default()
    };
    acc.accumulate_phase(5, 8, &backend);
    assert_eq!(acc.schedule_from_graph_us, 5);
    assert_eq!(acc.entangling_layers_us, 8);
    assert_eq!(acc.placement_us, Some(10));
    assert_eq!(acc.movement_us, Some(20));

    let backend2 = BackendStageInfo {
        movement_us: Some(30),
        ..Default::default()
    };
    acc.accumulate_phase(3, 2, &backend2);
    assert_eq!(acc.schedule_from_graph_us, 8);
    assert_eq!(acc.entangling_layers_us, 10);
    assert_eq!(acc.placement_us, Some(10)); // not re-placed
    assert_eq!(acc.movement_us, Some(50)); // 20 + 30
}

#[test]
fn zoned_stage_info_reports_fallbacks_and_mechanism() {
    let counts = ZonedSearchCounts {
        aware_search_completed_layers: 4,
        aware_search_budget_exceeded_layers: 2,
        aware_search_no_legal_assignment_layers: 1,
        aware_search_node_expansions: 99,
        agnostic_greedy_fallback_layers: 3,
    };
    let info = zoned_stage_info(PlacerMode::RoutingAgnostic, counts, 1000, 8, 2.0f64.to_bits(), 0.5f64.to_bits(), 42);
    assert_eq!(info.placer_mode, Some(PlacerMode::RoutingAgnostic));
    assert_eq!(info.zoned_schedule_us, Some(42));
    assert_eq!(info.aware_search_status, Some((4, 3)));
    assert_eq!(info.agnostic_placer_mechanism, Some(AgnosticPlacerMechanism::GreedyFallback));
    assert_eq!(info.search_diagnostics.aware_search_node_budget, Some(1000));
    assert_eq!(info.search_diagnostics.aware_search_pruning_window, Some(8));
    assert_eq!(info.search_diagnostics.aware_search_node_expansions, Some(99));
    assert_eq!(info.search_diagnostics.aware_search_deepening_factor.map(f64::from_bits), Some(2.0));
    assert_eq!(info.search_diagnostics.aware_search_deepening_value.map(f64::from_bits), Some(0.5));
    assert!(info.placement_us.is_none() && info.movement_us.is_none());

    let clean = ZonedSearchCounts { agnostic_greedy_fallback_layers: 0, ..counts };
    let info = zoned_stage_info(PlacerMode::RoutingAgnostic, clean, 1000, 8, 2.0f64.to_bits(), 0.5f64.to_bits(), 42);
    assert_eq!(info.agnostic_placer_mechanism, Some(AgnosticPlacerMechanism::Matching));
    let info = zoned_stage_info(PlacerMode::RoutingAware, counts, 1000, 8, 2.0f64.to_bits(), 0.5f64.to_bits(), 42);
    assert_eq!(info.agnostic_placer_mechanism, None);
    assert_eq!(info.search_diagnostics.agnostic_placer_mechanism, None);
}

#[test]
fn flat_stage_info_reports_placement_only_when_placed() {
    let info = flat_stage_info(PlacementStrategy::RowMajor, Some(5), 9);
    assert_eq!(info.placement_strategy, Some(PlacementStrategy::RowMajor));
    assert_eq!(info.placement_us, Some(5));
    assert_eq!(info.movement_us, Some(9));
    assert!(info.zoned_schedule_us.is_none() && info.placer_mode.is_none());
    let info = flat_stage_info(PlacementStrategy::RowMajor, None, 9);
    assert_eq!(info.placement_us, None);
}
