use std::collections::HashMap;

use meshi::terrain_refresh::{
    delta_refresh_batch, full_refresh_batch, plan_terrain_refresh, should_refresh_terrain, TerrainChunkKey,
    TerrainRefreshInputs, TerrainRefreshPlan,
};

fn key(project: &str, x: i32, y: i32) -> TerrainChunkKey {
    TerrainChunkKey { project_key: project.to_string(), coords: [x, y] }
}

fn inputs() -> TerrainRefreshInputs {
    TerrainRefreshInputs {
        terrain_dirty: false,
        frame_index: 10,
        last_refresh_frame: 8,
        camera_still: false,
        current_chunk: Some([0, 0]),
        last_chunk: Some([0, 0]),
        camera_moved: false,
        view_changed: false,
        objects_empty: false,
    }
}

#[test]
fn unchanged_hashes_adopt_and_skip() {
    let last = vec![(key("p", 0, 0), 1), (key("p", 1, 0), 2)];
    let next = vec![(key("p", 1, 0), 2), (key("p", 0, 0), 1)];
    assert!(matches!(
        plan_terrain_refresh(false, 4, false, 2, &last, &next),
        TerrainRefreshPlan::Skip { adopt_hashes: true }
    ));
}

#[test]
fn changed_hashes_give_a_delta() {
    let last = vec![(key("p", 0, 0), 1), (key("p", 1, 0), 2), (key("p", 2, 0), 3)];
    let next = vec![(key("p", 0, 0), 1), (key("p", 1, 0), 7), (key("p", 3, 0), 4)];
    match plan_terrain_refresh(false, 6, false, 2, &last, &next) {
        TerrainRefreshPlan::Delta { updates, removals } => {
            assert_eq!(updates, vec![1, 2]);
            assert_eq!(removals, vec![2]);
        }
        _ => panic!("expected a delta refresh"),
    }
}

#[test]
fn settings_change_or_empty_or_dirty_rebuilds_all() {
    let last = vec![(key("p", 0, 0), 1)];
    let next = vec![(key("p", 0, 0), 1)];
    assert!(matches!(plan_terrain_refresh(true, 2, false, 2, &last, &next), TerrainRefreshPlan::Full));
    assert!(matches!(plan_terrain_refresh(false, 0, false, 2, &last, &next), TerrainRefreshPlan::Full));
    assert!(matches!(plan_terrain_refresh(false, 2, true, 2, &last, &next), TerrainRefreshPlan::Full));
}

#[test]
fn other_project_counts_as_another_chunk() {
    let last = vec![(key("a", 0, 0), 1)];
    let next = vec![(key("b", 0, 0), 1)];
    match plan_terrain_refresh(false, 2, false, 2, &last, &next) {
        TerrainRefreshPlan::Delta { updates, removals } => {
            assert_eq!(updates, vec![0]);
            assert_eq!(removals, vec![0]);
        }
        _ => panic!("expected a delta refresh"),
    }
}

#[test]
fn refresh_batches() {
    assert_eq!(full_refresh_batch(0, 30, 12), (12, false));
    assert_eq!(full_refresh_batch(24, 30, 12), (6, true));
    assert_eq!(full_refresh_batch(40, 30, 12), (0, true));
    assert_eq!(delta_refresh_batch(0, 5, 0, 10, 12), (5, 7, false));
    assert_eq!(delta_refresh_batch(5, 5, 7, 10, 12), (0, 3, true));
    assert_eq!(delta_refresh_batch(0, 20, 0, 3, 12), (12, 0, false));
}

#[test]
fn dirty_terrain_always_refreshes() {
    let mut i = inputs();
    i.terrain_dirty = true;
    i.frame_index = 8;
    assert!(should_refresh_terrain(&i));
}

#[test]
fn refresh_waits_for_the_interval_unless_a_new_chunk_is_entered() {
    let mut i = inputs();
    i.camera_moved = true;
    assert!(!should_refresh_terrain(&i));
    i.current_chunk = Some([1, 0]);
    assert!(should_refresh_terrain(&i));
    i.current_chunk = Some([0, 0]);
    i.frame_index = 12;
    assert!(should_refresh_terrain(&i));
    i.camera_moved = false;
    assert!(!should_refresh_terrain(&i));
    i.view_changed = true;
    assert!(should_refresh_terrain(&i));
}

#[test]
fn still_camera_checks_every_frame() {
    let mut i = inputs();
    i.camera_still = true;
    i.frame_index = 9;
    i.view_changed = true;
    assert!(should_refresh_terrain(&i));
}

#[test]
fn nothing_built_waits_for_a_new_chunk() {
    let mut i = inputs();
    i.frame_index = 20;
    i.objects_empty = true;
    i.camera_moved = true;
    assert!(!should_refresh_terrain(&i));
    i.last_chunk = None;
    assert!(should_refresh_terrain(&i));
}

#[test]
fn applying_a_delta_gives_the_fetched_hashes() {
    let last = vec![(key("p", 0, 0), 1), (key("p", 1, 0), 2), (key("p", 2, 0), 3), (key("q", 0, 0), 9)];
    let next = vec![(key("p", 2, 0), 3), (key("p", 1, 0), 5), (key("p", 4, 0), 6), (key("q", 0, 0), 9)];
    let TerrainRefreshPlan::Delta { updates, removals } = plan_terrain_refresh(false, 8, false, 2, &last, &next) else {
        panic!("expected a delta refresh");
    };
    let as_map = |list: &Vec<(TerrainChunkKey, u64)>| -> HashMap<(String, [i32; 2]), u64> {
        list.iter().map(|(k, h)| ((k.project_key.clone(), k.coords), *h)).collect()
    };
    let mut known = as_map(&last);
    for &i in &updates {
        known.insert((next[i].0.project_key.clone(), next[i].0.coords), next[i].1);
    }
    for &j in &removals {
        known.remove(&(last[j].0.project_key.clone(), last[j].0.coords));
    }
    assert_eq!(known, as_map(&next));
    assert_eq!(updates, vec![1, 2]);
    assert_eq!(removals, vec![0]);
}
