use otf_2d_engine::{BinStats, Binner, SurfaceSize, TileEntry, TileGeometry};

/// Groups `assignments` — (row-major tile, segment) — for a grid `columns`
/// tiles across, and returns the tiles and segment indices.
fn group(assignments: &[(u32, u32)], columns: u32) -> (Vec<TileEntry>, Vec<u32>, BinStats) {
    let mut binner = Binner::new();
    binner.begin(assignments.len());
    for &(tile, segment) in assignments {
        binner.assign(tile, segment);
    }
    binner.group(columns);
    (binner.tiles().to_vec(), binner.indices().to_vec(), binner.stats())
}

#[test]
fn zero_sized_tiles_are_clamped_to_one_pixel() {
    let geometry = TileGeometry::new(0, 0);
    assert_eq!(geometry.width, 1);
    assert_eq!(geometry.height, 1);
    let geometry = TileGeometry::new(16, 0);
    assert_eq!((geometry.width, geometry.height), (16, 1));
    let default = TileGeometry::default();
    assert_eq!((default.width, default.height), (256, 4));
}

#[test]
fn the_tile_grid_rounds_up_to_cover_the_surface() {
    let surface = SurfaceSize::new(1920, 1081);
    assert_eq!(surface.tile_grid(TileGeometry::new(256, 4)), (8, 271));
    assert_eq!(SurfaceSize::new(256, 4).tile_grid(TileGeometry::new(256, 4)), (1, 1));
    assert_eq!(SurfaceSize::new(0, 0).tile_grid(TileGeometry::new(16, 16)), (0, 0));
}

#[test]
fn grouped_tiles_come_out_in_row_major_order() {
    let (tiles, _, _) = group(&[(9, 0), (2, 0), (5, 1), (2, 1), (0, 2)], 4);
    let places: Vec<(u16, u16)> = tiles.iter().map(|t| (t.y, t.x)).collect();
    assert_eq!(places, vec![(0, 0), (0, 2), (1, 1), (2, 1)]);
}

#[test]
fn grouping_ignores_the_order_assignments_arrive_in() {
    let forward = group(&[(3, 7), (3, 1), (1, 4), (3, 5), (1, 2)], 4);
    let backward = group(&[(1, 2), (3, 5), (1, 4), (3, 1), (3, 7)], 4);
    assert_eq!(forward.0, backward.0);
    assert_eq!(forward.1, backward.1);
    assert_eq!(forward.1, vec![2, 4, 1, 5, 7]);
}

#[test]
fn a_grouped_tile_names_its_own_segments() {
    let (tiles, indices, stats) = group(&[(6, 3), (1, 0), (6, 1), (1, 2), (6, 2)], 5);
    assert_eq!(tiles.len(), 2);
    assert_eq!(tiles[0], TileEntry { x: 1, y: 0, offset: 0, len: 2 });
    assert_eq!(tiles[1], TileEntry { x: 1, y: 1, offset: 2, len: 3 });
    assert_eq!(indices, vec![0, 2, 1, 2, 3]);
    assert_eq!(stats, BinStats { segments_in: 5, segments_dropped: 0, assignments: 5, tiles: 2 });
}

#[test]
fn only_assigned_tiles_are_grouped() {
    let (tiles, indices, stats) = group(&[(40, 0)], 10);
    assert_eq!(tiles, vec![TileEntry { x: 0, y: 4, offset: 0, len: 1 }]);
    assert_eq!(indices, vec![0]);
    assert_eq!(stats.tiles, 1);
}

#[test]
fn an_empty_pass_costs_nothing() {
    let (tiles, indices, stats) = group(&[], 8);
    assert!(tiles.is_empty());
    assert!(indices.is_empty());
    assert_eq!(stats, BinStats { segments_in: 0, segments_dropped: 0, assignments: 0, tiles: 0 });
    assert_eq!(Binner::new().memory_usage(), 0);
}

#[test]
fn dropped_segments_are_counted() {
    let mut binner = Binner::new();
    binner.begin(3);
    binner.drop_segment();
    binner.assign(0, 1);
    binner.group(1);
    assert_eq!(binner.stats().segments_dropped, 1);
    binner.drop_all();
    assert_eq!(binner.stats().segments_dropped, 3);
}

#[test]
fn finished_bins_read_back_their_tiles() {
    let segments = ['a', 'b', 'c', 'd'];
    let mut binner = Binner::new();
    binner.begin(segments.len());
    binner.assign(5, 3);
    binner.assign(0, 1);
    binner.assign(5, 0);
    binner.group(4);
    let geometry = TileGeometry::new(16, 8);
    let bins = binner.finish(&segments, geometry, SurfaceSize::new(64, 16), 4, 2);
    assert_eq!(bins.grid(), (4, 2));
    let tiles = bins.tiles();
    assert_eq!(tiles.len(), 2);
    assert_eq!(bins.tile_indices(&tiles[1]), &[0, 3]);
    assert_eq!(bins.tile_segments(&tiles[1]), vec!['a', 'd']);
    assert_eq!(bins.tile_segments(&tiles[0]), vec!['b']);
    assert_eq!(bins.tile_origin(&tiles[1]), (16, 8));
    assert!(binner.memory_usage() > 0);
}

#[test]
fn a_run_of_tiles_names_each_segment_once_in_order() {
    let segments = [0u8; 8];
    let mut binner = Binner::new();
    binner.begin(segments.len());
    for &(tile, segment) in &[(1, 5), (0, 5), (0, 2), (2, 7), (1, 0), (2, 2)] {
        binner.assign(tile, segment);
    }
    binner.group(3);
    let bins = binner.finish(&segments, TileGeometry::new(8, 8), SurfaceSize::new(24, 8), 3, 1);
    let mut out = vec![99u32, 98];
    bins.run_indices(bins.tiles(), &mut out);
    assert_eq!(out, vec![0, 2, 5, 7]);
    bins.run_indices(&bins.tiles()[..1], &mut out);
    assert_eq!(out, vec![2, 5]);
    bins.run_indices(&[], &mut out);
    assert!(out.is_empty());
}
