use meshi::handle::{pack_handle, Handle, INVALID_HANDLE};
use meshi::scene::{GPUScene, GPUSceneInfo, GPUSceneLimits, SceneBin, SceneObjectInfo, MAX_ACTIVE_VIEWS};

type Mat = [f32; 16];

const IDENTITY: Mat = [
    1.0, 0.0, 0.0, 0.0, //
    0.0, 1.0, 0.0, 0.0, //
    0.0, 0.0, 1.0, 0.0, //
    0.0, 0.0, 0.0, 1.0,
];

fn translation(x: f32, y: f32, z: f32) -> Mat {
    let mut m = IDENTITY;
    m[12] = x;
    m[13] = y;
    m[14] = z;
    m
}

fn scale(s: f32) -> Mat {
    let mut m = IDENTITY;
    m[0] = s;
    m[5] = s;
    m[10] = s;
    m
}

fn mul(a: &Mat, b: &Mat) -> Mat {
    let mut out = [0.0f32; 16];
    for col in 0..4 {
        for row in 0..4 {
            let mut v = 0.0;
            for k in 0..4 {
                v += a[k * 4 + row] * b[col * 4 + k];
            }
            out[col * 4 + row] = v;
        }
    }
    out
}

fn make_test_scene() -> GPUScene<Mat> {
    let bins = [SceneBin { id: 0, mask: u32::MAX }];
    GPUScene::new(&GPUSceneInfo {
        name: "test_scene",
        draw_bins: &bins,
        limits: GPUSceneLimits { max_num_scene_objects: 1024, max_num_views: MAX_ACTIVE_VIEWS as u32 },
    })
}

fn make_object_info(local: Mat, global: Mat, scene_mask: u32) -> SceneObjectInfo<Mat> {
    SceneObjectInfo { local, global, scene_mask }
}

#[test]
fn registering_object_tracks_state() {
    let mut scene = make_test_scene();
    let info = make_object_info(IDENTITY, IDENTITY, 0xFF);
    let handle = scene.register_object(&info, Handle::new(3, 0));

    assert_eq!(scene.active_object_handles().len(), 1);
    assert_eq!(scene.active_object_handles()[0], handle);

    let stored = scene.object(handle).unwrap();
    assert_eq!(stored.scene_mask, info.scene_mask);
    assert_eq!(stored.active, 1);
    assert_eq!(stored.local_transform, info.local);
    assert_eq!(stored.world_transform, info.global);
}

#[test]
fn releasing_object_clears_tracking() {
    let mut scene = make_test_scene();
    let handle = scene.register_object(&make_object_info(IDENTITY, IDENTITY, 1), Handle::new(0, 0));

    scene.release_object(handle);

    assert!(scene.active_object_handles().is_empty());
    assert!(scene.object(handle).is_none());
}

#[test]
fn transforming_object_marks_dirty() {
    let mut scene = make_test_scene();
    let handle = scene.register_object(&make_object_info(IDENTITY, IDENTITY, 1), Handle::new(0, 0));

    let delta = translation(1.0, 2.0, 3.0);
    let product = mul(&scene.get_object_transform(handle), &delta);
    scene.set_object_transform(handle, product);

    let stored = scene.object(handle).unwrap();
    assert_eq!(stored.local_transform, mul(&IDENTITY, &delta));
    assert_eq!(stored.dirty, 1);
}

#[test]
fn setting_object_transform_replaces_value() {
    let mut scene = make_test_scene();
    let handle = scene.register_object(&make_object_info(IDENTITY, IDENTITY, 1), Handle::new(0, 0));

    let replacement = scale(2.0);
    scene.set_object_transform(handle, replacement);

    let stored = scene.object(handle).unwrap();
    assert_eq!(stored.local_transform, replacement);
    assert_eq!(stored.dirty, 1);
}

#[test]
fn adding_and_removing_child_updates_relationships() {
    let mut scene = make_test_scene();
    let parent = scene.register_object(&make_object_info(IDENTITY, IDENTITY, 1), Handle::new(0, 0));
    let child = scene.register_object(&make_object_info(IDENTITY, IDENTITY, 1), Handle::new(1, 0));

    scene.add_child(parent, child);

    let parent_ref = scene.object(parent).unwrap();
    assert_eq!(parent_ref.child_count, 1);
    assert_eq!(parent_ref.children[0], pack_handle(child));

    let child_ref = scene.object(child).unwrap();
    assert_eq!(child_ref.parent, pack_handle(parent));
    assert_eq!(child_ref.parent_slot, parent.slot as u32);

    scene.remove_child(parent, child);

    let parent_ref = scene.object(parent).unwrap();
    assert_eq!(parent_ref.child_count, 0);
    assert_eq!(parent_ref.children[0], INVALID_HANDLE);

    let child_ref = scene.object(child).unwrap();
    assert_eq!(child_ref.parent, INVALID_HANDLE);
    assert_eq!(child_ref.parent_slot, u32::MAX);
    assert_eq!(child_ref.dirty, 1);
}

#[test]
fn releasing_child_detaches_from_parent() {
    let mut scene = make_test_scene();
    let parent = scene.register_object(&make_object_info(IDENTITY, IDENTITY, 1), Handle::new(0, 0));
    let child = scene.register_object(&make_object_info(IDENTITY, IDENTITY, 1), Handle::new(1, 0));

    scene.add_child(parent, child);
    scene.release_object(child);

    let parent_ref = scene.object(parent).unwrap();
    assert_eq!(parent_ref.child_count, 0);
    assert_eq!(parent_ref.children[0], INVALID_HANDLE);
}

#[test]
fn setting_active_camera_updates_buffer() {
    let mut scene = make_test_scene();

    let expected_slot: u16 = 7;
    let handle = Handle::new(expected_slot, 1);
    scene.set_active_camera(handle);

    let camera_state = scene.active_cameras();
    assert_eq!(camera_state.count, 1);
    assert_eq!(camera_state.slots[0], expected_slot as u32);
    assert!(camera_state.slots[1..].iter().all(|slot| *slot == u32::MAX));
}

#[test]
fn setting_multiple_active_cameras_clamps_and_orders_slots() {
    let mut scene = make_test_scene();

    let mut handles = Vec::new();
    for i in 0..(MAX_ACTIVE_VIEWS as u16 + 2) {
        handles.push(Handle::new(i, 1));
    }

    scene.set_active_cameras(&handles);

    let camera_state = scene.active_cameras();
    assert_eq!(camera_state.count as usize, MAX_ACTIVE_VIEWS);
    for i in 0..MAX_ACTIVE_VIEWS {
        assert_eq!(camera_state.slots[i], i as u32);
    }
}

#[test]
fn register_then_release_restores_the_scene() {
    let mut scene = make_test_scene();
    let kept = scene.register_object(&make_object_info(IDENTITY, IDENTITY, 1), Handle::new(4, 0));
    let before = scene.object(kept).unwrap();
    let temp = scene.register_object(&make_object_info(scale(2.0), IDENTITY, 2), Handle::new(9, 1));
    assert_eq!(scene.release_object(temp), Some(Handle::new(9, 1)));
    assert_eq!(scene.active_object_handles(), &vec![kept]);
    assert!(scene.object(temp).is_none());
    let after = scene.object(kept).unwrap();
    assert_eq!(after.local_transform, before.local_transform);
    assert_eq!(after.parent, before.parent);
    assert_eq!(after.child_count, before.child_count);
    let untracked = scene.register_object(&make_object_info(IDENTITY, IDENTITY, 1), Handle::invalid());
    assert_eq!(scene.release_object(untracked), None);
}
