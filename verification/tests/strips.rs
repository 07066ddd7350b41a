use otf_2d_engine::strips::{band_end, band_rows, plan_bands, plan_runs, run_columns, run_end, TileBand, TileRun};
use otf_2d_engine::TileEntry;
use otf_2d_engine::{Strip, StripKind, StripStats, Striper, Strips, SurfaceSize, TileGeometry};

/// The coverage the strips record at `(x, row)` of `band`: the last strip
/// covering the pixel speaks.
fn decode(strips: &Strips<'_>, band: u32, x: u32, row: u16) -> u8 {
    let mut found = 0;
    for strip in strips.band_strips(band) {
        if strip.x <= x && x < strip.x + strip.width {
            found = strips.coverage(strip, row, x - strip.x);
        }
    }
    found
}

/// Feeds one band of columns, left to right, the way stage 5 does: a column
/// without coverage ends the spans being built.
fn feed(striper: &mut Striper, band: u32, rows: u16, columns: &[Vec<u8>]) {
    striper.begin_band(band, rows);
    let before = striper.strip_count();
    for (x, column) in columns.iter().enumerate() {
        if column.iter().all(|&c| c == 0) {
            striper.end_span();
        } else {
            striper.take_column(x as u32, column);
        }
    }
    striper.end_span();
    striper.end_band(before);
}

#[test]
fn fed_columns_decode_back_exactly() {
    let mut columns: Vec<Vec<u8>> = Vec::new();
    columns.push(vec![10, 20]);
    columns.push(vec![30, 40]);
    for _ in 0..10 {
        columns.push(vec![255, 255]);
    }
    columns.push(vec![0, 0]);
    columns.push(vec![5, 6]);
    columns.push(vec![5, 6]);
    columns.push(vec![7, 0]);
    let mut striper = Striper::new();
    striper.clear();
    feed(&mut striper, 0, 2, &columns);
    let strips = striper.finish(TileGeometry::new(16, 2), SurfaceSize::new(16, 2));
    for (x, column) in columns.iter().enumerate() {
        for row in 0..2u16 {
            assert_eq!(decode(&strips, 0, x as u32, row), column[row as usize], "pixel ({x}, {row})");
        }
    }
    let kinds: Vec<bool> = strips.strips().iter().map(|s| s.is_uniform()).collect();
    assert_eq!(kinds, vec![false, true, false]);
    assert!(strips.strips()[1].is_solid(&strips));
    assert!(!strips.strips()[0].is_solid(&strips));
    let stats = strips.stats();
    assert_eq!(stats, StripStats { bands: 1, alpha_strips: 2, uniform_strips: 1, alpha_pixels: 2 * 2 + 3 * 2 });
    assert!(striper.memory_usage() >= 3 * core::mem::size_of::<Strip>() + 12);
}

#[test]
fn a_run_too_short_for_its_own_span_joins_the_per_pixel_span() {
    let columns: Vec<Vec<u8>> = (0..7).map(|_| vec![200u8]).chain([vec![9u8]]).collect();
    let mut striper = Striper::new();
    feed(&mut striper, 0, 1, &columns);
    let strips = striper.finish(TileGeometry::new(8, 1), SurfaceSize::new(8, 1));
    assert_eq!(strips.strips().len(), 1);
    assert_eq!(strips.strips()[0], Strip { x: 0, band: 0, width: 8, rows: 1, kind: StripKind::Alpha { offset: 0 } });
    assert_eq!(strips.alphas(), &[200, 200, 200, 200, 200, 200, 200, 9]);
}

#[test]
fn a_gap_with_coverage_is_one_constant_span() {
    let mut striper = Striper::new();
    striper.begin_band(0, 3);
    striper.gap(4, 100, &[255, 128, 0]);
    striper.gap(100, 100, &[255, 255, 255]);
    striper.gap(100, 120, &[0, 0, 0]);
    let strips = striper.finish(TileGeometry::new(8, 3), SurfaceSize::new(128, 3));
    assert_eq!(strips.strips(), &[Strip { x: 4, band: 0, width: 96, rows: 3, kind: StripKind::Uniform { offset: 0 } }]);
    assert_eq!(decode(&strips, 0, 50, 1), 128);
    assert_eq!(decode(&strips, 0, 3, 0), 0);
    assert_eq!(decode(&strips, 0, 110, 0), 0);
}

#[test]
fn bands_are_found_by_their_index() {
    let mut striper = Striper::new();
    feed(&mut striper, 0, 1, &[vec![1], vec![2]]);
    feed(&mut striper, 2, 1, &[vec![0], vec![3]]);
    feed(&mut striper, 5, 1, &[vec![0], vec![0]]);
    let strips = striper.finish(TileGeometry::new(2, 1), SurfaceSize::new(2, 6));
    assert_eq!(strips.stats().bands, 2);
    assert_eq!(strips.band_range(0), 0..1);
    assert_eq!(strips.band_range(1), 1..1);
    assert_eq!(strips.band_range(2), 1..2);
    assert_eq!(strips.band_strips(2)[0].x, 1);
    assert_eq!(strips.strip_alphas(&strips.band_strips(2)[0]), &[3]);
    assert_eq!(decode(&strips, 2, 1, 0), 3);
    assert_eq!(decode(&strips, 0, 1, 0), 2);
    assert!(strips.band_strips(5).is_empty());
}

#[test]
fn a_chosen_coverage_run_is_one_per_pixel_span() {
    let mut striper = Striper::new();
    let strips = striper.from_coverage(&[1, 2, 3, 4, 5], 3);
    assert_eq!(strips.strips(), &[Strip { x: 0, band: 0, width: 3, rows: 1, kind: StripKind::Alpha { offset: 0 } }]);
    assert_eq!(strips.alphas(), &[1, 2, 3]);
    assert_eq!(strips.geometry(), TileGeometry::new(3, 1));
    assert_eq!(strips.surface(), SurfaceSize::new(3, 1));
    let empty = striper.from_coverage(&[], 9);
    assert!(empty.strips().is_empty());
}

#[test]
fn strips_must_come_band_by_band() {
    let out_of_order = [
        Strip { x: 0, band: 2, width: 1, rows: 1, kind: StripKind::Uniform { offset: 0 } },
        Strip { x: 0, band: 1, width: 1, rows: 1, kind: StripKind::Uniform { offset: 0 } },
    ];
    let stats = StripStats::default();
    assert!(Strips::from_parts(TileGeometry::default(), SurfaceSize::new(1, 1), &out_of_order, &[9], stats).is_none());
    let in_order = [out_of_order[1], out_of_order[0]];
    assert!(Strips::from_parts(TileGeometry::default(), SurfaceSize::new(1, 1), &in_order, &[9], stats).is_some());
}

#[test]
fn coverage_outside_a_strip_is_zero() {
    let strips = [Strip { x: 2, band: 0, width: 2, rows: 2, kind: StripKind::Alpha { offset: 0 } }];
    let alphas = [1u8, 2, 3, 4];
    let stats = StripStats::default();
    let strips = Strips::from_parts(TileGeometry::new(4, 2), SurfaceSize::new(4, 2), &strips, &alphas, stats).expect("ordered");
    let strip = strips.strips()[0];
    assert_eq!(strips.coverage(&strip, 1, 1), 4);
    assert_eq!(strips.coverage(&strip, 2, 0), 0);
    assert_eq!(strips.coverage(&strip, 0, 2), 0);
}

#[test]
fn a_band_is_the_run_of_tiles_in_one_row() {
    let tile = |x: u16, y: u16| TileEntry { x, y, offset: 0, len: 1 };
    let tiles = [tile(0, 0), tile(3, 0), tile(1, 2), tile(2, 2), tile(0, 5)];
    assert_eq!(band_end(&tiles, 0), 2);
    assert_eq!(band_end(&tiles, 2), 4);
    assert_eq!(band_end(&tiles, 4), 5);
}

#[test]
fn the_last_band_is_cut_short_by_the_surface() {
    assert_eq!(band_rows(0, 4, 10), Some(4));
    assert_eq!(band_rows(2, 4, 10), Some(2));
    assert_eq!(band_rows(3, 4, 10), None);
    assert_eq!(band_rows(65535, 65535, u32::MAX), Some(65535));
}

#[test]
fn runs_of_adjacent_tiles_cover_their_columns() {
    let tile = |x: u16| TileEntry { x, y: 0, offset: 0, len: 1 };
    let tiles = [tile(1), tile(2), tile(3), tile(5), tile(6), tile(9)];
    assert_eq!(run_end(&tiles, 0), 3);
    assert_eq!(run_end(&tiles, 3), 5);
    assert_eq!(run_end(&tiles, 5), 6);
    assert_eq!(run_columns(1, 3, 16, 1000), (16, 64));
    assert_eq!(run_columns(5, 6, 16, 100), (80, 100));
    assert_eq!(run_columns(65535, 65535, 65535, u32::MAX), (65535 * 65535, 65536 * 65535));
}

fn tile(x: u16, y: u16) -> TileEntry {
    TileEntry { x, y, offset: 0, len: 1 }
}

#[test]
fn a_band_is_walked_as_maximal_runs_with_the_gaps_between_them() {
    let band: Vec<TileEntry> = [1, 2, 3, 5, 6, 9].iter().map(|&x| tile(x, 0)).collect();
    let plan = plan_runs(&band, 16, 100);
    assert_eq!(
        plan,
        vec![
            TileRun { first: 0, end: 3, gap_from: 0, x_lo: 16, x_hi: 64 },
            TileRun { first: 3, end: 5, gap_from: 64, x_lo: 80, x_hi: 100 },
        ]
    );
}

#[test]
fn a_run_inside_the_surface_keeps_its_full_width() {
    let band: Vec<TileEntry> = [0, 4].iter().map(|&x| tile(x, 2)).collect();
    let plan = plan_runs(&band, 4, 64);
    assert_eq!(
        plan,
        vec![
            TileRun { first: 0, end: 1, gap_from: 0, x_lo: 0, x_hi: 4 },
            TileRun { first: 1, end: 2, gap_from: 4, x_lo: 16, x_hi: 20 },
        ]
    );
    assert!(plan_runs(&[], 4, 64).is_empty());
}

#[test]
fn draw_tiles_are_walked_band_by_band_and_bands_below_the_surface_are_skipped() {
    let tiles = vec![tile(0, 0), tile(1, 0), tile(3, 1), tile(0, 2), tile(2, 2), tile(5, 3)];
    let plan = plan_bands(&tiles, 4, 10);
    assert_eq!(
        plan,
        vec![
            TileBand { first: 0, end: 2, band: 0, rows: 4 },
            TileBand { first: 2, end: 3, band: 1, rows: 4 },
            TileBand { first: 3, end: 5, band: 2, rows: 2 },
        ]
    );
    assert!(plan_bands(&[], 4, 10).is_empty());
}
