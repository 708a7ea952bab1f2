use meshi::draw_builder::{build_dispatch_layout, draw_list_range, MAX_DISPATCH_BINS};

#[test]
fn dispatch_layout_uses_z_for_each_bin() {
    let layout = build_dispatch_layout(127, &[3, 8, 13]);
    assert_eq!(layout.dispatch_x, 2);
    assert_eq!(layout.dispatch_z, 3);
    assert_eq!(layout.bins_len, 3);
    assert_eq!(&layout.bins[..3], &[3, 8, 13]);
}

#[test]
fn dispatch_layout_defaults_to_one_z_without_bins() {
    let layout = build_dispatch_layout(0, &[]);
    assert_eq!(layout.dispatch_x, 1);
    assert_eq!(layout.dispatch_z, 1);
    assert_eq!(layout.bins_len, 0);
}

#[test]
fn dispatch_param_payload_fits_dynamic_storage_limit() {
    let payload_size = (7 + MAX_DISPATCH_BINS) * std::mem::size_of::<u32>();
    assert!(payload_size <= 256);
}

#[test]
fn dispatch_layout_caps_bins_to_dynamic_storage_limit() {
    let bins: Vec<u32> = (0..(MAX_DISPATCH_BINS as u32 + 6)).collect();
    let layout = build_dispatch_layout(64, &bins);
    assert_eq!(layout.bins_len, MAX_DISPATCH_BINS as u32);
    assert_eq!(layout.dispatch_z, MAX_DISPATCH_BINS as u32);
    assert_eq!(layout.bins[MAX_DISPATCH_BINS - 1], (MAX_DISPATCH_BINS - 1) as u32);
}

#[test]
fn dispatch_layout_rounds_workgroups_up() {
    assert_eq!(build_dispatch_layout(1, &[]).dispatch_x, 1);
    assert_eq!(build_dispatch_layout(64, &[]).dispatch_x, 1);
    assert_eq!(build_dispatch_layout(65, &[]).dispatch_x, 2);
    assert_eq!(build_dispatch_layout(u32::MAX, &[]).dispatch_x, 67108864);
}

#[test]
fn dispatch_layout_zero_fills_unused_bins() {
    let layout = build_dispatch_layout(5, &[9]);
    assert_eq!(layout.bins[0], 9);
    assert!(layout.bins[1..].iter().all(|b| *b == 0));
}

#[test]
fn draw_list_range_for_bin() {
    assert_eq!(draw_list_range(0, 2048), (0, 40960));
    assert_eq!(draw_list_range(3, 2048), (122880, 40960));
}
