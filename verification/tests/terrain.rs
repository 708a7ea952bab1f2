use meshi::terrain::{
    assign_clipmap_tiles, chunk_grid_size, chunk_height_sample_index, clipmap_cells, clipmap_target_lod, ilog2,
    material_tile, normal_stencil, select_clipmap_source, TerrainChunkRef, TerrainClipmapResourceSettings,
    TerrainClipmapSettings,
};

#[test]
fn clipmap_settings_default_to_65() {
    assert_eq!(TerrainClipmapResourceSettings::default().tile_resolution, [65, 65]);
    let s = TerrainClipmapSettings::default();
    assert_eq!(s.surface.tile_resolution, [65, 65]);
    assert_eq!(s.material.tile_resolution, [65, 65]);
}

#[test]
fn chunk_refs() {
    match TerrainChunkRef::coords([1, -2], 3) {
        TerrainChunkRef::Coords { coords, lod } => assert_eq!((coords, lod), ([1, -2], 3)),
        _ => panic!("expected coords"),
    }
    assert!(matches!(TerrainChunkRef::artifact_entry("a".to_string()), TerrainChunkRef::ArtifactEntry(e) if e == "a"));
    assert!(matches!(TerrainChunkRef::chunk_entry("c".to_string()), TerrainChunkRef::ChunkEntry(e) if e == "c"));
}

#[test]
fn lod_rings() {
    assert_eq!(ilog2(1), 0);
    assert_eq!(ilog2(8), 3);
    assert_eq!(ilog2(u32::MAX), 31);
    assert_eq!(clipmap_target_lod(0, 0, 4), 0);
    assert_eq!(clipmap_target_lod(1, -1, 4), 0);
    assert_eq!(clipmap_target_lod(-2, 0, 4), 1);
    assert_eq!(clipmap_target_lod(4, 3, 4), 2);
    assert_eq!(clipmap_target_lod(100, 0, 4), 3);
    assert_eq!(clipmap_target_lod(100, 0, 0), 0);
}

#[test]
fn clipmap_grid_cells() {
    let cells = clipmap_cells([10, 20], 3, 4);
    assert_eq!(cells.len(), 9);
    assert_eq!(cells[0].coords, [9, 19]);
    assert_eq!(cells[4].coords, [10, 20]);
    assert_eq!(cells[5].coords, [11, 20]);
    assert_eq!(cells[8].coords, [11, 21]);
    assert!(cells.iter().all(|c| c.target_lod == 0));
    let wide = clipmap_cells([0, 0], 8, 4);
    assert_eq!(wide.len(), 64);
    assert_eq!(wide[0].coords, [-4, -4]);
    assert_eq!(wide[0].target_lod, 2);
    assert_eq!(clipmap_cells([0, 0], 0, 4).len(), 1);
}

#[test]
fn clipmap_source_prefers_closest_then_finer() {
    assert_eq!(select_clipmap_source(&vec![0, 1, 2, 3], 2), 2);
    assert_eq!(select_clipmap_source(&vec![3, 1], 2), 1);
    assert_eq!(select_clipmap_source(&vec![5, 5, 4], 0), 2);
    assert_eq!(select_clipmap_source(&vec![2, 2], 2), 0);
}

#[test]
fn clipmap_tiles_keep_previous_and_fill_free() {
    // chunk 0 keeps tile 2; chunk 1 loses tile 2 to chunk 0 and chunk 2 has none:
    // they take the free tiles 0 and 1 in order; chunk 3 held a tile outside the map.
    let tiles = assign_clipmap_tiles(&vec![Some(2), Some(2), None, Some(9)], 4);
    assert_eq!(tiles, vec![2, 0, 1, 3]);
    // with no free tile left, a chunk gets tile 0
    let full = assign_clipmap_tiles(&vec![Some(0), None], 1);
    assert_eq!(full, vec![0, 0]);
    assert_eq!(assign_clipmap_tiles(&vec![], 4), Vec::<u32>::new());
}

#[test]
fn chunk_grid_indexing() {
    assert_eq!(chunk_grid_size([4, 0]), [5, 1]);
    assert_eq!(chunk_grid_size([u32::MAX, 2]), [u32::MAX, 3]);
    assert_eq!(chunk_height_sample_index([5, 5], 2, 3), Some(17));
    assert_eq!(chunk_height_sample_index([5, 5], 5, 0), None);
    assert_eq!(normal_stencil(0, 5), (0, 1, 1));
    assert_eq!(normal_stencil(4, 5), (3, 4, 1));
    assert_eq!(normal_stencil(2, 5), (1, 3, 2));
    assert_eq!(normal_stencil(0, 1), (0, 0, 1));
    assert_eq!(material_tile(4, 1, [4, 4]), [3, 1]);
    assert_eq!(material_tile(2, 9, [0, 4]), [0, 3]);
}
