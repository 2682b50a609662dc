use std::collections::BTreeMap;

use quon_na::emit::{emit_load_move_store, push_planned_layer, AodAxis, EmitState, MovementEmitError, PlannedLeg};
use quon_na::ids::{AodTrapRef, AtomId, SiteId};
use quon_na::schedule::{AtomMove, MovementGroup, NeutralAtomAction, ScheduleLayer, TransferDirection, TrapTransfer};

fn state(occ: &[(u32, u32)]) -> EmitState {
    EmitState {
        occ_site: occ.iter().map(|&(s, a)| (s, a)).collect(),
        occ_atom: occ.iter().map(|&(s, a)| (a, s)).collect(),
        out_layers: Vec::new(),
        next_cycle: 4,
        rearrangement_steps: 0,
        rearrangement_time_us: 0,
        trap_transfers: 0,
        transfer_time_us: 0,
        trap_transfer_us: 15,
        aod_rows: 2,
        aod_cols: 2,
    }
}

fn leg(atom: u32, from: u32, to: u32, row: u32, col: u32) -> PlannedLeg {
    PlannedLeg { atom: AtomId(atom), from: SiteId(from), to: SiteId(to), aod_id: 0, row, col }
}

#[test]
fn one_group_emits_load_move_store() {
    let mut st = state(&[(0, 1), (1, 2)]);
    let group = vec![leg(1, 0, 5, 0, 0), leg(2, 1, 6, 0, 1)];
    emit_load_move_store(&mut st, &group, 9, 7, true).expect("emit");
    assert_eq!(st.out_layers.len(), 3);
    assert_eq!(st.out_layers.iter().map(|l| l.cycle).collect::<Vec<_>>(), vec![4, 5, 6]);
    assert_eq!(st.next_cycle, 7);
    assert_eq!(st.trap_transfers, 4);
    assert_eq!(st.transfer_time_us, 60);
    assert_eq!(st.rearrangement_steps, 1);
    assert_eq!(st.rearrangement_time_us, 7);
    assert_eq!(st.occ_site, BTreeMap::from([(5, 1), (6, 2)]));
    assert_eq!(st.occ_atom, BTreeMap::from([(1, 5), (2, 6)]));
    match &st.out_layers[0].actions[0] {
        NeutralAtomAction::Transfer(t) => {
            assert_eq!(t.direction, TransferDirection::SlmToAod);
            assert_eq!(t.site, SiteId(0));
            assert_eq!(t.aod, AodTrapRef { aod_id: 0, row: 0, col: 0 });
            assert_eq!(t.duration_us, 15);
        }
        other => panic!("unexpected {other:?}"),
    }
    match &st.out_layers[1].actions[0] {
        NeutralAtomAction::Move(g) => {
            assert_eq!(g.moves.len(), 2);
            assert_eq!(g.moves[1].to, SiteId(6));
            assert_eq!(g.duration_us, 7);
        }
        other => panic!("unexpected {other:?}"),
    }
    match &st.out_layers[2].actions[1] {
        NeutralAtomAction::Transfer(t) => {
            assert_eq!(t.direction, TransferDirection::AodToSlm);
            assert_eq!(t.site, SiteId(6));
            assert_eq!(t.atom, AtomId(2));
        }
        other => panic!("unexpected {other:?}"),
    }
}

#[test]
fn empty_group_emits_nothing() {
    let mut st = state(&[(0, 1)]);
    emit_load_move_store(&mut st, &Vec::new(), 0, 7, false).expect("empty");
    assert!(st.out_layers.is_empty());
    assert_eq!(st.next_cycle, 4);
}

#[test]
fn shared_destination_is_a_collision() {
    let mut st = state(&[(0, 1), (1, 2)]);
    let group = vec![leg(1, 0, 5, 0, 0), leg(2, 1, 5, 0, 1)];
    assert_eq!(
        emit_load_move_store(&mut st, &group, 9, 7, true),
        Err(MovementEmitError::Collision { cycle: 9, site: SiteId(5) })
    );
    assert!(st.out_layers.is_empty());
    assert_eq!(st.occ_site, BTreeMap::from([(0, 1), (1, 2)]));
}

#[test]
fn occupied_destination_is_refused() {
    let mut st = state(&[(0, 1), (5, 3)]);
    let group = vec![leg(1, 0, 5, 0, 0)];
    assert_eq!(
        emit_load_move_store(&mut st, &group, 9, 7, true),
        Err(MovementEmitError::TransferIntoOccupied { cycle: 4, site: SiteId(5) })
    );
}

#[test]
fn too_many_rows_exceed_the_aod() {
    let mut st = state(&[(0, 1), (1, 2), (2, 3)]);
    let group = vec![leg(1, 0, 5, 0, 0), leg(2, 1, 6, 1, 0), leg(3, 2, 7, 2, 0)];
    assert_eq!(
        emit_load_move_store(&mut st, &group, 9, 7, true),
        Err(MovementEmitError::AodCapacity { axis: AodAxis::Rows, needed: 3, limit: 2 })
    );
}

#[test]
fn illegal_aod_motion_is_refused() {
    let mut st = state(&[(0, 1)]);
    let group = vec![leg(1, 0, 5, 0, 0)];
    assert_eq!(emit_load_move_store(&mut st, &group, 9, 7, false), Err(MovementEmitError::AodIllegal { cycle: 4 }));
    assert_eq!(st.trap_transfers, 0);
}

fn transfer(atom: u32) -> NeutralAtomAction {
    NeutralAtomAction::Transfer(TrapTransfer {
        atom: AtomId(atom),
        direction: TransferDirection::SlmToAod,
        site: SiteId(0),
        aod: AodTrapRef { aod_id: 0, row: 0, col: 0 },
        duration_us: 15,
    })
}

#[test]
fn planned_entangle_layer_drops_moves_and_transfers() {
    let mut st = state(&[]);
    let layer = ScheduleLayer {
        cycle: 99,
        actions: vec![transfer(3), NeutralAtomAction::Entangle2 { atoms: [AtomId(1), AtomId(2)], duration_us: 1 }],
    };
    push_planned_layer(&mut st, layer, true).expect("push");
    assert_eq!(st.out_layers.len(), 1);
    assert_eq!(st.out_layers[0].cycle, 4);
    assert_eq!(st.out_layers[0].actions.len(), 1);
    assert!(matches!(st.out_layers[0].actions[0], NeutralAtomAction::Entangle2 { .. }));
    assert_eq!(st.next_cycle, 5);
}

#[test]
fn planned_entangle_layer_refuses_a_shared_atom() {
    let mut st = state(&[]);
    let layer = ScheduleLayer {
        cycle: 0,
        actions: vec![
            NeutralAtomAction::Entangle2 { atoms: [AtomId(1), AtomId(2)], duration_us: 1 },
            NeutralAtomAction::Entangle2 { atoms: [AtomId(2), AtomId(3)], duration_us: 1 },
        ],
    };
    assert_eq!(push_planned_layer(&mut st, layer, true), Err(2));
    assert!(st.out_layers.is_empty());
}

#[test]
fn pass_through_layer_of_moves_only_is_dropped() {
    let mut st = state(&[]);
    let layer = ScheduleLayer {
        cycle: 0,
        actions: vec![NeutralAtomAction::Move(MovementGroup {
            moves: vec![AtomMove { atom: AtomId(1), from: SiteId(0), to: SiteId(1) }],
            duration_us: 3,
        })],
    };
    push_planned_layer(&mut st, layer, false).expect("push");
    assert!(st.out_layers.is_empty());
    assert_eq!(st.next_cycle, 4);
}
