use meshi::handle::Handle;
use meshi::physics::{broad_phase_pairs, contact_pair_key, effective_material, CollisionShapeType, GridCell};

fn h(slot: u16) -> Handle {
    Handle::new(slot, 0)
}

#[test]
fn missing_material_falls_back_to_default() {
    let default = h(0);
    assert_eq!(effective_material(Handle::default(), default), default);
    assert_eq!(effective_material(h(3), default), h(3));
    assert_eq!(CollisionShapeType::default(), CollisionShapeType::Sphere);
}

#[test]
fn pair_keys_ignore_order() {
    assert_eq!(contact_pair_key(h(5), h(2)), (2, 5));
    assert_eq!(contact_pair_key(h(2), h(5)), (2, 5));
}

#[test]
fn broad_phase_pairs_touching_cells_once() {
    let grid = vec![
        GridCell { cell: [0, 0, 0], bodies: vec![h(0), h(1)] },
        GridCell { cell: [1, 0, 0], bodies: vec![h(2)] },
        GridCell { cell: [5, 5, 5], bodies: vec![h(3)] },
    ];
    let pairs = broad_phase_pairs(&grid);
    assert_eq!(pairs, vec![(h(0), h(1)), (h(0), h(2)), (h(1), h(2))]);
}

#[test]
fn broad_phase_keeps_the_first_orientation_of_a_pair() {
    let grid = vec![
        GridCell { cell: [1, 0, 0], bodies: vec![h(7)] },
        GridCell { cell: [0, 0, 0], bodies: vec![h(3)] },
        GridCell { cell: [0, 1, 0], bodies: vec![h(9)] },
    ];
    let pairs = broad_phase_pairs(&grid);
    assert_eq!(pairs, vec![(h(7), h(3)), (h(7), h(9)), (h(3), h(9))]);
}

#[test]
fn broad_phase_of_lonely_bodies_is_empty() {
    let grid = vec![
        GridCell { cell: [0, 0, 0], bodies: vec![h(0)] },
        GridCell { cell: [2, 0, 0], bodies: vec![h(1)] },
    ];
    assert!(broad_phase_pairs(&grid).is_empty());
}
