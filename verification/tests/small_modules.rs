use meshi::clouds::{
    blue_noise_data, calc_low_res, cloud_shadow_layout, hash_noise, noise_atlas_data, weather_map_data, CloudNoiseSizes,
    CloudResolutionScale, CloudWeatherChannelLayout,
};
use meshi::frame_timer::{FrameTimer, MAX_DURATION_NANOS};
use meshi::gpu_option::GpuOption;
use meshi::gui_mesh::gui_mesh_range;
use meshi::frame_pixels::bgra_to_rgba;
use meshi::shadow::ShadowPipelineMode;

#[test]
fn gpu_option_flags() {
    let none = GpuOption::none(5u32);
    assert!(none.is_none());
    assert!(!none.is_some());
    assert_eq!(none.as_ref(), None);
    let mut some = GpuOption::some(9u32);
    assert_eq!(some.is_some, 1);
    assert_eq!(some.as_ref(), Some(&9));
    if let Some(v) = some.as_mut() {
        *v = 11;
    }
    assert_eq!(some.value, 11);
    let d: GpuOption<u32> = GpuOption::default();
    assert_eq!(d.is_some, 0);
    assert_eq!(d.value, 0);
    let flagged = GpuOption { is_some: 7, value: 1u8 };
    assert!(flagged.is_some());
}

#[test]
fn hash_noise_values() {
    assert_eq!(hash_noise(0, 0, 0, 0), 0);
    assert_eq!(hash_noise(1, 2, 3, 4), 3404884158);
    assert_eq!(hash_noise(7, 11, 0, 1), 2876166210);
}

#[test]
fn blue_noise_texels() {
    let data = blue_noise_data(2);
    assert_eq!(data.len(), 16);
    assert_eq!(&data[12..16], &[194, 63, 0, 255]);
}

#[test]
fn noise_atlas_texels() {
    let data = noise_atlas_data([2, 1, 2], 1, 2);
    assert_eq!(data.len(), 16);
    assert_eq!(&data[12..16], &[80, 80, 80, 255]);
    assert_eq!(&data[0..4], &[152, 152, 152, 255]);
}

#[test]
fn cloud_defaults() {
    let sizes = CloudNoiseSizes::default();
    assert_eq!(
        (sizes.base_noise_size, sizes.detail_noise_size, sizes.weather_map_size, sizes.blue_noise_size),
        (128, 32, 256, 128)
    );
    let layout = CloudWeatherChannelLayout::default();
    assert_eq!((layout.coverage, layout.cloud_type, layout.thickness, layout.reserved), (0, 1, 2, 3));
    assert_eq!(CloudResolutionScale::default(), CloudResolutionScale::Half);
}

#[test]
fn low_res_targets() {
    assert_eq!(calc_low_res(1920, 1080, CloudResolutionScale::Half), [960, 540]);
    assert_eq!(calc_low_res(1920, 1080, CloudResolutionScale::Quarter), [480, 270]);
    assert_eq!(calc_low_res(0, 3, CloudResolutionScale::Quarter), [1, 1]);
}

#[test]
fn shadow_labels() {
    assert_eq!(ShadowPipelineMode::Deferred.label(), "DEFERRED");
    assert_eq!(ShadowPipelineMode::Forward.label(), "FORWARD");
}

#[test]
fn gui_mesh_truncates_to_capacity() {
    let r = gui_mesh_range(10, 30, 8, 40);
    assert_eq!((r.vertex_count, r.index_count), (8, 30));
}

#[test]
fn frame_timer_reports_every_n_frames() {
    let mut timer = FrameTimer::new(2);
    assert_eq!(timer.window_totals(), None);
    assert_eq!(timer.record_duration(1_000_000), None);
    assert_eq!(timer.record_duration(3_000_000), Some(2));
    assert_eq!(timer.window_totals(), Some((4_000_000, 2)));
}

#[test]
fn frame_timer_window_rolls_after_sixty_frames() {
    let mut timer = FrameTimer::new(0);
    for i in 0..61u128 {
        assert_eq!(timer.record_duration(i), None);
    }
    // the first frame (0 ns) dropped out: 1 + 2 + ... + 60
    assert_eq!(timer.window_totals(), Some((1830, 60)));
}

#[test]
fn frame_timer_first_frame_only_starts() {
    let mut timer = FrameTimer::new(1);
    assert_eq!(timer.record_frame(), None);
    assert_eq!(timer.window_totals(), None);
    timer.start();
    assert_eq!(timer.record_frame(), Some(1));
    assert_eq!(timer.window_totals().map(|(_, n)| n), Some(1));
}

#[test]
fn weather_map_places_channels_by_layout() {
    let channels = vec![[10u8, 20, 30], [1, 2, 3]];
    let data = weather_map_data(0, CloudWeatherChannelLayout::default(), &Vec::new());
    assert!(data.is_empty());
    let one = weather_map_data(1, CloudWeatherChannelLayout::default(), &vec![[10u8, 20, 30]]);
    assert_eq!(one, vec![10, 20, 30, 255]);
    let shared = CloudWeatherChannelLayout { coverage: 1, cloud_type: 1, thickness: 0, reserved: 3 };
    let two = weather_map_data(1, shared, &vec![channels[0]]);
    assert_eq!(two, vec![30, 20, 0, 255]);
}

#[test]
fn frame_counter_counts_recorded_frames() {
    let mut t = FrameTimer::new(0);
    assert_eq!(t.frame_count(), 0);
    t.record_duration(5);
    t.record_duration(7);
    assert_eq!(t.frame_count(), 2);
    assert_eq!(t.window_totals(), Some((12, 2)));
}

#[test]
fn cloud_shadow_cascades_share_one_buffer() {
    assert_eq!(cloud_shadow_layout(3, 512, [256, 0, 1024, 77]), ([0, 65536, 327680, 0], 1024));
    assert_eq!(cloud_shadow_layout(0, 0, [0, 9, 9, 9]), ([0, 0, 0, 0], 1));
    assert_eq!(cloud_shadow_layout(9, 4, [1, 2, 3, 4]), ([0, 1, 5, 14], 4));
    assert_eq!(cloud_shadow_layout(3, 1, [70000, 70000, 0, 0]), ([0, u32::MAX, u32::MAX, 0], 70000));
}

#[test]
fn measured_frame_past_the_largest_total_is_skipped() {
    let mut t = FrameTimer::new(1);
    assert_eq!(t.record_measured(5), Some(1));
    assert_eq!(t.record_measured(MAX_DURATION_NANOS), None);
    assert_eq!(t.frame_count(), 1);
    assert_eq!(t.window_totals(), Some((5, 1)));
    assert_eq!(t.record_measured(MAX_DURATION_NANOS - 5), Some(2));
    assert_eq!(t.window_totals(), Some((MAX_DURATION_NANOS, 2)));
}

#[test]
fn mixed_recording_calls_share_one_count() {
    let mut t = FrameTimer::new(2);
    assert_eq!(t.record_duration(10), None);
    assert_eq!(t.record_measured(20), Some(2));
    assert_eq!(t.record_frame(), None);
    assert_eq!(t.frame_count(), 2);
    assert_eq!(t.window_totals(), Some((30, 2)));
}

#[test]
fn bgra_frame_becomes_rgba() {
    let bgra = [1u8, 2, 3, 4, 10, 20, 30, 40, 99];
    assert_eq!(bgra_to_rgba(&bgra), vec![3, 2, 1, 4, 30, 20, 10, 40]);
    assert!(bgra_to_rgba(&[]).is_empty());
}
