use quon_na::dialect::TransferDirection as SpecTransferDirection;
use quon_na::ids::{AodTrapRef, AtomBinding, AtomId, SiteId, TrapBinding};
use quon_na::lower::{
    lower_layers, lower_schedule, ActionSpec, EntanglePairSpec, KeyedLayout, KeyedPoint, KeyedSite, PositionedAtom,
    ScheduleLowerError,
};
use quon_na::schedule::{AtomMove, LocalGateKind, MeasurementBasis, MovementGroup, NeutralAtomAction, ScheduleLayer, TransferDirection, TrapTransfer};

#[derive(Clone, Copy, Debug, PartialEq)]
struct Position {
    x_um: f64,
    y_um: f64,
}

#[derive(Clone, Debug, PartialEq)]
struct ScheduleLowerParams {
    target_id: String,
    rydberg_range_um: f64,
    min_rydberg_spacing_um: f64,
    aod_min_separation_um: f64,
}

fn params() -> ScheduleLowerParams {
    ScheduleLowerParams {
        target_id: "test_target".to_string(),
        rydberg_range_um: 7.5,
        min_rydberg_spacing_um: 18.75,
        aod_min_separation_um: 2.0,
    }
}

/// Integer key ordered as `f64::total_cmp` orders coordinates.
fn coordinate_key(v: f64) -> u64 {
    let bits = v.to_bits();
    if bits >> 63 == 1 {
        !bits
    } else {
        bits | (1 << 63)
    }
}

fn point(x_um: f64, y_um: f64) -> KeyedPoint<Position> {
    KeyedPoint { position: Position { x_um, y_um }, x_key: coordinate_key(x_um), y_key: coordinate_key(y_um) }
}

fn site(id: u32, x_um: f64, y_um: f64) -> KeyedSite<Position> {
    KeyedSite { id: SiteId(id), point: point(x_um, y_um) }
}

fn slm_binding(atom: u32, site: u32) -> AtomBinding {
    AtomBinding { atom: AtomId(atom), trap: TrapBinding::Slm { site: SiteId(site) } }
}

fn transfer(atom: u32, site: u32, direction: TransferDirection) -> NeutralAtomAction {
    NeutralAtomAction::Transfer(TrapTransfer {
        atom: AtomId(atom),
        direction,
        site: SiteId(site),
        aod: AodTrapRef { aod_id: 0, row: 0, col: 0 },
        duration_us: 15,
    })
}

fn load(atom: u32, site: u32) -> NeutralAtomAction {
    transfer(atom, site, TransferDirection::SlmToAod)
}

fn store(atom: u32, site: u32) -> NeutralAtomAction {
    transfer(atom, site, TransferDirection::AodToSlm)
}

fn move_group(moves: Vec<(u32, u32, u32)>, duration_us: u64) -> NeutralAtomAction {
    NeutralAtomAction::Move(MovementGroup {
        moves: moves
            .into_iter()
            .map(|(atom, from, to)| AtomMove { atom: AtomId(atom), from: SiteId(from), to: SiteId(to) })
            .collect(),
        duration_us,
    })
}

/// Two-atom layout mirroring the zoned Bell shape: storage sites 0/1,
/// entangle-pair sites 2/3, planner-final bindings at the pair.
fn bell_layout() -> KeyedLayout<Position> {
    KeyedLayout {
        sites: vec![site(0, 0.0, 0.0), site(1, 4.0, 0.0), site(2, 0.0, 310.0), site(3, 2.0, 310.0)],
        initial_bindings: vec![slm_binding(0, 2), slm_binding(1, 3)],
    }
}

fn bell_layers() -> Vec<ScheduleLayer> {
    vec![
        ScheduleLayer { cycle: 0, actions: vec![load(0, 0), load(1, 1)] },
        ScheduleLayer { cycle: 1, actions: vec![move_group(vec![(0, 0, 2), (1, 1, 3)], 336)] },
        ScheduleLayer { cycle: 2, actions: vec![store(0, 2), store(1, 3)] },
        ScheduleLayer {
            cycle: 3,
            actions: vec![NeutralAtomAction::Entangle2 { atoms: [AtomId(0), AtomId(1)], duration_us: 1 }],
        },
    ]
}

#[test]
fn lowers_bell_shape_with_reconstructed_positions() {
    let spec = match lower_layers(&bell_layers(), &bell_layout(), params()) {
        Ok(spec) => spec,
        Err(error) => panic!("bell lowering failed: {error:?}"),
    };

    assert_eq!(spec.params.target_id, "test_target");
    assert_eq!(spec.params.rydberg_range_um, 7.5);
    assert_eq!(spec.layers.len(), 4);
    let cycles: Vec<u32> = spec.layers.iter().map(|l| l.cycle).collect();
    assert_eq!(cycles, vec![0, 1, 2, 3]);

    let ActionSpec::Transfer(load_spec) = &spec.layers[0].actions[0] else {
        panic!("expected transfer, got {:?}", spec.layers[0].actions[0]);
    };
    assert_eq!(load_spec.direction, SpecTransferDirection::SlmToAod);
    assert_eq!(load_spec.site, 0);

    let ActionSpec::Move { moves, duration_us } = &spec.layers[1].actions[0] else {
        panic!("expected move, got {:?}", spec.layers[1].actions[0]);
    };
    assert_eq!(*duration_us, 336);
    assert_eq!(moves.len(), 2);
    assert_eq!((moves[0].from.position.x_um, moves[0].from.position.y_um), (0.0, 0.0), "atom 0 source position");
    assert_eq!((moves[0].to.position.x_um, moves[0].to.position.y_um), (0.0, 310.0));
    assert_eq!((moves[1].from.position.x_um, moves[1].from.position.y_um), (4.0, 0.0));
    assert_eq!((moves[1].to.position.x_um, moves[1].to.position.y_um), (2.0, 310.0));
    assert_eq!((moves[0].row, moves[0].col), (0, 0));
    assert_eq!((moves[1].row, moves[1].col), (0, 1));

    let ActionSpec::Transfer(store_spec) = &spec.layers[2].actions[1] else {
        panic!("expected transfer, got {:?}", spec.layers[2].actions[1]);
    };
    assert_eq!(store_spec.direction, SpecTransferDirection::AodToSlm);

    let ActionSpec::Entangle { pairs, duration_us } = &spec.layers[3].actions[0] else {
        panic!("expected entangle, got {:?}", spec.layers[3].actions[0]);
    };
    assert_eq!(*duration_us, 1);
    assert_eq!(
        pairs,
        &vec![EntanglePairSpec {
            lhs: PositionedAtom { atom: 0, point: point(0.0, 310.0) },
            rhs: PositionedAtom { atom: 1, point: point(2.0, 310.0) },
        }]
    );
}

#[test]
fn entangle_before_move_uses_pre_move_positions() {
    let layers = vec![
        ScheduleLayer {
            cycle: 0,
            actions: vec![NeutralAtomAction::Entangle2 { atoms: [AtomId(0), AtomId(1)], duration_us: 1 }],
        },
        ScheduleLayer { cycle: 1, actions: vec![load(0, 0), load(1, 1)] },
        ScheduleLayer { cycle: 2, actions: vec![move_group(vec![(0, 0, 2), (1, 1, 3)], 100)] },
    ];

    let spec = match lower_layers(&layers, &bell_layout(), params()) {
        Ok(spec) => spec,
        Err(error) => panic!("lowering failed: {error:?}"),
    };
    let ActionSpec::Entangle { pairs, .. } = &spec.layers[0].actions[0] else {
        panic!("expected entangle, got {:?}", spec.layers[0].actions[0]);
    };
    assert_eq!((pairs[0].lhs.point.position.x_um, pairs[0].lhs.point.position.y_um), (0.0, 0.0));
    assert_eq!((pairs[0].rhs.point.position.x_um, pairs[0].rhs.point.position.y_um), (4.0, 0.0));
}

#[test]
fn preserves_action_order_within_layer() {
    let layers = vec![ScheduleLayer {
        cycle: 0,
        actions: vec![
            NeutralAtomAction::Wait { duration_us: 5 },
            NeutralAtomAction::Measure { atom: AtomId(0), basis: MeasurementBasis::Z, duration_us: 1500 },
            NeutralAtomAction::Reset { atom: AtomId(1), duration_us: 1500 },
        ],
    }];

    let spec = match lower_layers(&layers, &bell_layout(), params()) {
        Ok(spec) => spec,
        Err(error) => panic!("lowering failed: {error:?}"),
    };
    assert_eq!(
        spec.layers[0].actions,
        vec![
            ActionSpec::Wait { duration_us: 5 },
            ActionSpec::Measure { atom: 0, basis: "z".to_string(), duration_us: 1500 },
            ActionSpec::Reset { atom: 1, duration_us: 1500 },
        ]
    );
}

#[test]
fn lowers_entangle_n_of_two_as_pair() {
    let layers = vec![ScheduleLayer {
        cycle: 0,
        actions: vec![NeutralAtomAction::EntangleN { atoms: vec![AtomId(0), AtomId(1)], duration_us: 2 }],
    }];
    let layout = KeyedLayout {
        sites: vec![site(0, 0.0, 0.0), site(1, 2.0, 0.0)],
        initial_bindings: vec![slm_binding(0, 0), slm_binding(1, 1)],
    };

    let spec = match lower_layers(&layers, &layout, params()) {
        Ok(spec) => spec,
        Err(error) => panic!("lowering failed: {error:?}"),
    };
    let ActionSpec::Entangle { pairs, .. } = &spec.layers[0].actions[0] else {
        panic!("expected entangle, got {:?}", spec.layers[0].actions[0]);
    };
    assert_eq!(pairs.len(), 1);
    assert_eq!(pairs[0].lhs.atom, 0);
    assert_eq!(pairs[0].rhs.atom, 1);
}

#[test]
fn rejects_missing_layout() {
    let layout: Option<KeyedLayout<Position>> = None;
    assert_eq!(lower_schedule(&[], &layout, params()), Err(ScheduleLowerError::MissingLayout));
}

#[test]
fn rejects_entangle_n_above_pair_arity() {
    let layers = vec![ScheduleLayer {
        cycle: 4,
        actions: vec![NeutralAtomAction::EntangleN { atoms: vec![AtomId(0), AtomId(1), AtomId(2)], duration_us: 2 }],
    }];
    assert_eq!(
        lower_layers(&layers, &bell_layout(), params()),
        Err(ScheduleLowerError::UnsupportedEntangleN { cycle: 4, arity: 3 })
    );
}

#[test]
fn rejects_entangle_atom_without_occupancy() {
    let layers = vec![ScheduleLayer {
        cycle: 0,
        actions: vec![NeutralAtomAction::Entangle2 { atoms: [AtomId(0), AtomId(9)], duration_us: 1 }],
    }];
    assert_eq!(
        lower_layers(&layers, &bell_layout(), params()),
        Err(ScheduleLowerError::UnboundAtom { cycle: 0, atom: 9 })
    );
}

#[test]
fn rejects_move_without_prior_load_transfer() {
    let layers = vec![ScheduleLayer { cycle: 0, actions: vec![move_group(vec![(0, 0, 2)], 100)] }];
    assert_eq!(
        lower_layers(&layers, &bell_layout(), params()),
        Err(ScheduleLowerError::MissingAodBinding { cycle: 0, atom: 0 })
    );
}

#[test]
fn rejects_move_inconsistent_with_final_bindings() {
    // Final bindings put atom 0 at site 2, but the last move claims it ended at site 3.
    let layers = vec![
        ScheduleLayer { cycle: 0, actions: vec![load(0, 0)] },
        ScheduleLayer { cycle: 1, actions: vec![move_group(vec![(0, 0, 3)], 100)] },
    ];
    let layout = KeyedLayout { sites: bell_layout().sites, initial_bindings: vec![slm_binding(0, 2)] };
    assert_eq!(
        lower_layers(&layers, &layout, params()),
        Err(ScheduleLowerError::InconsistentMove { cycle: 1, atom: 0, to: 3, found: 2 })
    );
}

#[test]
fn rejects_moved_atom_missing_from_final_bindings() {
    let layers = vec![
        ScheduleLayer { cycle: 0, actions: vec![load(7, 0)] },
        ScheduleLayer { cycle: 1, actions: vec![move_group(vec![(7, 0, 2)], 100)] },
    ];
    assert_eq!(
        lower_layers(&layers, &bell_layout(), params()),
        Err(ScheduleLowerError::UnboundAtom { cycle: 1, atom: 7 })
    );
}

#[test]
fn rejects_move_to_site_outside_layout() {
    let layers = vec![
        ScheduleLayer { cycle: 0, actions: vec![load(0, 0)] },
        ScheduleLayer { cycle: 1, actions: vec![move_group(vec![(0, 0, 99)], 100)] },
    ];
    let layout = KeyedLayout { sites: bell_layout().sites, initial_bindings: vec![slm_binding(0, 99)] };
    assert_eq!(
        lower_layers(&layers, &layout, params()),
        Err(ScheduleLowerError::MissingSite { cycle: 1, site: 99 })
    );
}

#[test]
fn rejects_duplicate_layout_site() {
    let layout = KeyedLayout { sites: vec![site(0, 0.0, 0.0), site(0, 1.0, 1.0)], initial_bindings: Vec::new() };
    assert_eq!(lower_layers(&[], &layout, params()), Err(ScheduleLowerError::DuplicateSite { site: 0 }));
}

#[test]
fn keeps_unique_flat_planner_aod_refs() {
    let layers = vec![
        ScheduleLayer {
            cycle: 0,
            actions: vec![
                NeutralAtomAction::Transfer(TrapTransfer {
                    atom: AtomId(0),
                    direction: TransferDirection::SlmToAod,
                    site: SiteId(0),
                    aod: AodTrapRef { aod_id: 0, row: 3, col: 4 },
                    duration_us: 15,
                }),
                NeutralAtomAction::Transfer(TrapTransfer {
                    atom: AtomId(1),
                    direction: TransferDirection::SlmToAod,
                    site: SiteId(1),
                    aod: AodTrapRef { aod_id: 0, row: 3, col: 5 },
                    duration_us: 15,
                }),
            ],
        },
        ScheduleLayer { cycle: 1, actions: vec![move_group(vec![(0, 0, 2), (1, 1, 3)], 100)] },
    ];

    let spec = match lower_layers(&layers, &bell_layout(), params()) {
        Ok(spec) => spec,
        Err(error) => panic!("lowering failed: {error:?}"),
    };
    let ActionSpec::Move { moves, .. } = &spec.layers[1].actions[0] else {
        panic!("expected move, got {:?}", spec.layers[1].actions[0]);
    };
    assert_eq!((moves[0].row, moves[0].col), (3, 4));
    assert_eq!((moves[1].row, moves[1].col), (3, 5));
}

#[test]
fn local_gate_has_no_dialect_op() {
    let layers = vec![ScheduleLayer { cycle: 2, actions: vec![NeutralAtomAction::LocalGate { atom: AtomId(1), gate: LocalGateKind::H, duration_us: 1 }] }];
    assert_eq!(
        lower_layers(&layers, &bell_layout(), params()),
        Err(ScheduleLowerError::UnsupportedLocalGate { cycle: 2, atom: 1 })
    );
}

#[test]
fn degenerate_refs_rank_rows_by_source_y() {
    // Three atoms loaded with the same placeholder ref; sources on two rows.
    let layout = KeyedLayout {
        sites: vec![
            site(0, 5.0, 10.0),
            site(1, -3.0, 10.0),
            site(2, 5.0, -2.0),
            site(3, 0.0, 50.0),
            site(4, 1.0, 50.0),
            site(5, 2.0, 50.0),
        ],
        initial_bindings: vec![slm_binding(0, 3), slm_binding(1, 4), slm_binding(2, 5)],
    };
    let layers = vec![
        ScheduleLayer { cycle: 0, actions: vec![load(0, 0), load(1, 1), load(2, 2)] },
        ScheduleLayer { cycle: 1, actions: vec![move_group(vec![(0, 0, 3), (1, 1, 4), (2, 2, 5)], 10)] },
    ];
    let spec = lower_layers(&layers, &layout, params()).unwrap();
    let ActionSpec::Move { moves, .. } = &spec.layers[1].actions[0] else {
        panic!("expected move");
    };
    let refs: Vec<(u32, u32)> = moves.iter().map(|m| (m.row, m.col)).collect();
    assert_eq!(refs, vec![(1, 1), (1, 0), (0, 1)]);
}
