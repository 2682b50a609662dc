use std::collections::BTreeSet;

use quon_na::ids::{AtomBinding, AtomId, LogicalQubitId, SiteId, TrapBinding};
use quon_na::placement::{grid_dims, row_major_sites, spiral_sites, validate_bindings};

#[test]
fn grid_dims_covers_n() {
    for n in 1..=64 {
        let (r, c) = grid_dims(n);
        assert!(r * c >= n, "n={n} -> {r}x{c}");
    }
}

#[test]
fn spiral_covers_all_sites_uniquely() {
    for &(rows, cols) in &[(1, 1), (2, 2), (3, 3), (3, 4), (4, 3), (5, 2)] {
        let order = spiral_sites(rows, cols);
        assert_eq!(order.len(), rows * cols);
        let set: BTreeSet<_> = order.iter().copied().collect();
        assert_eq!(set.len(), rows * cols);
    }
}

#[test]
fn grid_dims_exact_values() {
    assert_eq!(grid_dims(0), (0, 0));
    assert_eq!(grid_dims(1), (1, 1));
    assert_eq!(grid_dims(5), (2, 3));
    assert_eq!(grid_dims(9), (3, 3));
    assert_eq!(grid_dims(10), (3, 4));
}

#[test]
fn spiral_starts_at_center() {
    let order = spiral_sites(3, 3);
    assert_eq!(order[0], SiteId(4));
    let order = spiral_sites(4, 3);
    assert_eq!(order[0], SiteId(7));
}

#[test]
fn row_major_lists_sites_in_order() {
    assert_eq!(row_major_sites(2, 2), vec![SiteId(0), SiteId(1), SiteId(2), SiteId(3)]);
}

#[test]
fn spiral_order_on_three_by_three() {
    let order: Vec<u32> = spiral_sites(3, 3).iter().map(|s| s.0).collect();
    assert_eq!(order, vec![4, 5, 8, 7, 6, 3, 0, 1, 2]);
}

#[test]
fn bindings_must_place_each_vertex_once() {
    let slm = |atom: u32, site: u32| AtomBinding { atom: AtomId(atom), trap: TrapBinding::Slm { site: SiteId(site) } };
    let vertices = vec![LogicalQubitId(0), LogicalQubitId(1)];
    assert!(validate_bindings(&vertices, &vec![slm(1, 5), slm(0, 2)]));
    assert!(!validate_bindings(&vertices, &vec![slm(1, 5), slm(0, 5)]));
    assert!(!validate_bindings(&vertices, &vec![slm(1, 5), slm(1, 6)]));
    assert!(!validate_bindings(&vertices, &vec![slm(1, 5)]));
    assert!(!validate_bindings(&vertices, &vec![slm(1, 5), slm(2, 6)]));
}
