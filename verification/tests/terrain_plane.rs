use meshi::terrain_plane::{plane_geometry, plane_grid_layout, plane_topology, PlaneGridLayout};

#[test]
fn plane_layout_per_level() {
    assert_eq!(plane_grid_layout(4, 4, 0, 3), Some(PlaneGridLayout { step_x: 1, step_y: 1, grid_x: 5, grid_y: 5 }));
    assert_eq!(plane_grid_layout(4, 4, 1, 3), Some(PlaneGridLayout { step_x: 2, step_y: 2, grid_x: 3, grid_y: 3 }));
    assert_eq!(plane_grid_layout(4, 4, 2, 3), Some(PlaneGridLayout { step_x: 4, step_y: 4, grid_x: 2, grid_y: 2 }));
    assert_eq!(plane_grid_layout(8, 2, 2, 5), Some(PlaneGridLayout { step_x: 4, step_y: 2, grid_x: 3, grid_y: 2 }));
    assert_eq!(
        plane_grid_layout(0, 0, 40, 100),
        Some(PlaneGridLayout { step_x: 1, step_y: 1, grid_x: 2, grid_y: 2 })
    );
}

#[test]
fn plane_layout_that_does_not_fit() {
    assert_eq!(plane_grid_layout(u32::MAX, 4, 0, 3), None);
    assert_eq!(
        plane_grid_layout(u32::MAX, 4, 2, 3),
        Some(PlaneGridLayout { step_x: u32::MAX, step_y: 4, grid_x: 2, grid_y: 2 })
    );
}

#[test]
fn single_square_plane() {
    let t = plane_topology(2, 2, false);
    assert_eq!(t.indices, vec![0, 2, 1, 1, 2, 3]);
    assert!(t.skirt_sources.is_empty());
}

#[test]
fn single_square_plane_with_skirts() {
    let t = plane_topology(2, 2, true);
    assert_eq!(t.skirt_sources, vec![0, 1, 2, 3, 0, 2, 1, 3]);
    let mut expected: Vec<u32> = vec![0, 2, 1, 1, 2, 3];
    expected.extend_from_slice(&[0, 4, 1, 1, 4, 5, 0, 1, 4, 1, 5, 4]);
    expected.extend_from_slice(&[2, 6, 3, 3, 6, 7, 2, 3, 6, 3, 7, 6]);
    expected.extend_from_slice(&[0, 8, 2, 2, 8, 9, 0, 2, 8, 2, 9, 8]);
    expected.extend_from_slice(&[1, 10, 3, 3, 10, 11, 1, 3, 10, 3, 11, 10]);
    assert_eq!(t.indices, expected);
}

#[test]
fn plane_indices_stay_in_range() {
    let t = plane_topology(5, 3, true);
    let vertices = 5 * 3 + t.skirt_sources.len() as u32;
    assert_eq!(t.skirt_sources.len(), 16);
    assert_eq!(t.indices.len(), 6 * 4 * 2 + 12 * (4 + 4 + 2 + 2));
    assert!(t.indices.iter().all(|&i| i < vertices));
    assert_eq!(&t.indices[6..12], &[1, 6, 2, 2, 6, 7]);
    assert_eq!(&t.indices[24..30], &[5, 10, 6, 6, 10, 11]);
}

#[test]
fn plane_geometry_adds_skirts_below_the_coarsest_level() {
    let (layout, topology) = plane_geometry(4, 4, 2, 4).unwrap();
    assert_eq!(layout, PlaneGridLayout { step_x: 4, step_y: 4, grid_x: 2, grid_y: 2 });
    assert_eq!(topology.skirt_sources, vec![0, 1, 2, 3, 0, 2, 1, 3]);
    assert_eq!(topology.indices.len(), 6 + 4 * 12);

    let (layout, topology) = plane_geometry(4, 4, 2, 3).unwrap();
    assert_eq!(layout, PlaneGridLayout { step_x: 4, step_y: 4, grid_x: 2, grid_y: 2 });
    assert!(topology.skirt_sources.is_empty());
    assert_eq!(topology.indices, vec![0, 2, 1, 1, 2, 3]);
}

#[test]
fn plane_geometry_refuses_grids_too_large_for_u32_indices() {
    assert!(plane_geometry(u32::MAX, 4, 0, 3).is_none());
    assert!(plane_geometry(70000, 70000, 0, 3).is_none());
}
