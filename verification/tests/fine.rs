use otf_2d_engine::band::reached_span;
use otf_2d_engine::{
    FineTables, LINEAR_LEVELS, LINEAR_SCALE, PixelFormat, Simd, SolidPaint, Strip, StripKind, StripStats,
    Striper, Strips, SurfaceSize, TargetError, TargetMut, TileGeometry, encode_color, render_band,
    render_solid_paint,
};

fn srgb_to_linear(v: f32) -> f32 {
    if v <= 0.04045 { v / 12.92 } else { ((v + 0.055) / 1.055).powf(2.4) }
}

fn linear_to_srgb(v: f32) -> f32 {
    if v <= 0.003_130_8 { v * 12.92 } else { 1.055 * v.powf(1.0 / 2.4) - 0.055 }
}

fn srgb8_to_linear(v: u8) -> f32 {
    srgb_to_linear(v as f32 / 255.0)
}

fn linear_to_srgb8(v: f32) -> u8 {
    (linear_to_srgb(v.clamp(0.0, 1.0)) * 255.0 + 0.5) as u8
}

/// A unit-interval value as a fixed-point linear level.
fn quantize(value: f32) -> u32 {
    if value.is_nan() || value <= 0.0 {
        return 0;
    }
    let scaled = value * LINEAR_SCALE as f32 + 0.5;
    if scaled >= LINEAR_SCALE as f32 { LINEAR_SCALE } else { scaled as u32 }
}

/// The standard sRGB tables, built the way the renderer builds them.
fn tables() -> FineTables {
    let mut decode = [0u32; 256];
    for (byte, level) in decode.iter_mut().enumerate() {
        *level = quantize(srgb8_to_linear(byte as u8));
    }
    let mut encode = [0u8; LINEAR_LEVELS];
    for (level, byte) in encode.iter_mut().enumerate() {
        *byte = linear_to_srgb8(level as f32 / LINEAR_SCALE as f32);
    }
    FineTables::new(decode, &encode)
}

/// An 8-bit sRGB colour with straight alpha, premultiplied in linear light.
fn from_srgb8(r: u8, g: u8, b: u8, a: u8) -> [f32; 4] {
    let alpha = a as f32 / 255.0;
    [srgb8_to_linear(r) * alpha, srgb8_to_linear(g) * alpha, srgb8_to_linear(b) * alpha, alpha]
}

/// Premultiplied linear levels of an sRGB colour with straight alpha.
fn levels(_tables: &FineTables, r: u8, g: u8, b: u8, a: u8) -> [u32; 4] {
    let [r, g, b, a] = from_srgb8(r, g, b, a);
    [quantize(r), quantize(g), quantize(b), quantize(a)]
}

/// Runs one coverage span through stage 6. The point is the kernel, not the
/// path that reached it.
fn blend_span(data: &mut [u8], paint: &SolidPaint, tables: &FineTables, coverage: &[u8], simd: Simd, format: PixelFormat) {
    let width = coverage.len() as u32;
    let mut striper = Striper::new();
    let strips = striper.from_coverage(coverage, width);
    let mut target = TargetMut::new(data, width, 1, format).expect("target");
    render_solid_paint(&mut target, &strips, paint, tables, simd);
}

/// One row of strips whose coverage is `coverage`, composited with `simd`
/// over a row whose bytes are `row`.
fn blend_row(coverage: &[u8], row: &[u8], paint: &SolidPaint, tables: &FineTables, simd: Simd) -> Vec<u8> {
    let mut striper = Striper::new();
    let strips = striper.from_coverage(coverage, coverage.len() as u32);
    let mut data = row.to_vec();
    let width = coverage.len() as u32;
    let mut target = TargetMut::new(&mut data, width, 1, PixelFormat::Rgba8Premul).expect("target");
    render_solid_paint(&mut target, &strips, paint, tables, simd);
    data
}

#[test]
fn dispatch_never_selects_a_path_the_cpu_cannot_run() {
    let chosen = Simd::detect();
    assert!(chosen.is_available(), "detect() chose {chosen:?}, which this CPU cannot run");
    assert!(Simd::Scalar.is_available(), "the reference path is always available");
    assert_eq!(Simd::Scalar.resolve(), Simd::Scalar);
    assert_eq!(
        Simd::Avx2.resolve(),
        if Simd::Avx2.is_available() { Simd::Avx2 } else { Simd::Scalar },
        "asking for an unsupported path must fall back, not fault"
    );
}

#[test]
fn a_target_must_be_large_enough() {
    let mut data = vec![0u8; 16];
    assert!(TargetMut::new(&mut data, 8, 8, PixelFormat::Rgba8Premul).is_err());
    let mut data = vec![0u8; 8 * 8 * 4];
    assert!(TargetMut::new(&mut data, 8, 8, PixelFormat::Rgba8Premul).is_ok());
    let mut data = vec![0u8; 8 * 8 * 4];
    assert!(TargetMut::with_stride(&mut data, 8, 8, 4, PixelFormat::Rgba8Premul).is_err());
}

#[test]
fn each_target_error_says_what_was_needed() {
    let mut data = vec![0u8; 16];
    match TargetMut::new(&mut data, 8, 8, PixelFormat::Rgba8Premul) {
        Err(error) => assert_eq!(error, TargetError::TooSmall { needed: 256, found: 16 }),
        Ok(_) => panic!("a short buffer was accepted"),
    }
    let mut data = vec![0u8; 256];
    match TargetMut::with_stride(&mut data, 8, 8, 4, PixelFormat::Rgba8Premul) {
        Err(error) => assert_eq!(error, TargetError::StrideTooSmall { needed: 32, found: 4 }),
        Ok(_) => panic!("a short stride was accepted"),
    }
}

#[test]
fn every_srgb_byte_survives_decode_and_encode() {
    let tables = tables();
    assert!(tables.check_round_trip());
    for byte in 0..=255u8 {
        assert_eq!(tables.encode(tables.decode(byte)), byte);
        assert_eq!(tables.encode_alpha(tables.decode_alpha(byte)), byte);
    }
}

#[test]
fn alpha_levels_are_a_rounded_scale() {
    let tables = tables();
    assert_eq!(tables.decode_alpha(0), 0);
    assert_eq!(tables.decode_alpha(255), 4096);
    assert_eq!(tables.coverage(128), 2056);
    assert_eq!(tables.encode_alpha(2048), 128);
    assert_eq!(tables.encode_alpha(9000), 255);
    assert_eq!(tables.encode(9000), tables.encode(4096));
}

#[test]
fn zero_coverage_leaves_a_span_bit_identical() {
    let tables = tables();
    let paint = SolidPaint::new(levels(&tables, 255, 0, 0, 255), PixelFormat::Rgba8Premul, &tables);
    let coverage = vec![0u8; 24];
    let row: Vec<u8> = (0..24 * 4).map(|i| (i * 29 % 256) as u8).collect();
    for simd in [Simd::Scalar, Simd::Avx2] {
        assert_eq!(blend_row(&coverage, &row, &paint, &tables, simd), row);
    }
}

#[test]
fn full_coverage_by_an_opaque_paint_stores_its_bytes() {
    let tables = tables();
    let paint = SolidPaint::new(levels(&tables, 12, 34, 56, 255), PixelFormat::Rgba8Premul, &tables);
    assert!(paint.is_opaque());
    assert_eq!(paint.bytes(), [12, 34, 56, 255]);
    let coverage = vec![255u8; 16];
    let row: Vec<u8> = (0..16 * 4).map(|i| (i * 53 % 256) as u8).collect();
    for simd in [Simd::Scalar, Simd::Avx2] {
        let out = blend_row(&coverage, &row, &paint, &tables, simd);
        for pixel in out.chunks(4) {
            assert_eq!(pixel, &[12, 34, 56, 255]);
        }
    }
}

#[test]
fn encoded_colours_follow_the_format() {
    let tables = tables();
    let colour = levels(&tables, 10, 20, 30, 255);
    assert_eq!(encode_color(colour, PixelFormat::Rgba8Premul, &tables), [10, 20, 30, 255]);
    assert_eq!(encode_color(colour, PixelFormat::Bgra8Premul, &tables), [30, 20, 10, 255]);
    assert_eq!(PixelFormat::Bgra8Premul.channel_order(), [2, 1, 0]);
    assert_eq!(PixelFormat::Rgba8Premul.bytes_per_pixel(), 4);
}

#[test]
fn a_translucent_paint_accumulates_alpha_over_a_span() {
    let tables = tables();
    let half = SolidPaint::new(levels(&tables, 0, 0, 0, 128), PixelFormat::Rgba8Premul, &tables);
    assert!(!half.is_opaque());
    for simd in [Simd::Scalar, Simd::Avx2] {
        let out = blend_row(&[255], &[0, 0, 0, 0], &half, &tables, simd);
        assert_eq!(out[3], 128, "{simd:?}: alpha did not composite");
        let twice = blend_row(&[255], &out, &half, &tables, simd);
        assert_eq!(twice[3], 192);
    }
}

#[test]
fn a_strided_target_writes_only_its_own_rows() {
    let tables = tables();
    let stride = 8 * 4 + 16;
    let mut data = vec![0xccu8; stride * 4];
    {
        let mut target = TargetMut::with_stride(&mut data, 8, 4, stride, PixelFormat::Rgba8Premul).expect("target");
        target.clear(levels(&tables, 0, 0, 0, 255), &tables);
    }
    for row in 0..4 {
        let start = row * stride;
        assert!(data[start..start + 32].iter().all(|&b| b != 0xcc));
        assert!(data[start + 32..start + stride].iter().all(|&b| b == 0xcc), "padding after row {row} was written");
    }
}

#[test]
fn a_strided_render_keeps_the_padding() {
    let tables = tables();
    let paint = SolidPaint::new(levels(&tables, 90, 90, 90, 200), PixelFormat::Rgba8Premul, &tables);
    let strips = [Strip { x: 0, band: 0, width: 4, rows: 2, kind: StripKind::Uniform { offset: 0 } }];
    let alphas = [255u8, 128];
    let stats = StripStats { bands: 1, alpha_strips: 0, uniform_strips: 1, alpha_pixels: 0 };
    let strips = Strips::from_parts(TileGeometry::new(4, 2), SurfaceSize::new(4, 2), &strips, &alphas, stats).expect("ordered");
    let stride = 4 * 4 + 8;
    let mut data = vec![0x5au8; stride * 2];
    {
        let mut target = TargetMut::with_stride(&mut data, 4, 2, stride, PixelFormat::Rgba8Premul).expect("target");
        render_solid_paint(&mut target, &strips, &paint, &tables, Simd::Scalar);
    }
    for row in 0..2 {
        let start = row * stride;
        assert!(data[start..start + 16].iter().any(|&b| b != 0x5a));
        assert!(data[start + 16..start + stride].iter().all(|&b| b == 0x5a));
    }
}

#[test]
fn bands_render_the_same_in_any_order() {
    let tables = tables();
    let paint = SolidPaint::new(levels(&tables, 200, 100, 50, 220), PixelFormat::Rgba8Premul, &tables);
    let strips = [
        Strip { x: 1, band: 0, width: 3, rows: 2, kind: StripKind::Alpha { offset: 0 } },
        Strip { x: 0, band: 1, width: 4, rows: 2, kind: StripKind::Uniform { offset: 6 } },
    ];
    let alphas = [10u8, 20, 30, 40, 50, 60, 255, 77];
    let stats = StripStats { bands: 2, alpha_strips: 1, uniform_strips: 1, alpha_pixels: 6 };
    let strips = Strips::from_parts(TileGeometry::new(4, 2), SurfaceSize::new(4, 4), &strips, &alphas, stats).expect("ordered");
    let stride = 16;
    let initial: Vec<u8> = (0..stride * 4).map(|i| (i * 7 % 256) as u8).collect();

    let mut serial = initial.clone();
    {
        let mut target = TargetMut::new(&mut serial, 4, 4, PixelFormat::Rgba8Premul).expect("target");
        render_solid_paint(&mut target, &strips, &paint, &tables, Simd::Avx2);
    }
    let mut reversed = initial.clone();
    let chunk = stride * 2;
    for band in [1usize, 0] {
        let rows = &mut reversed[band * chunk..(band + 1) * chunk];
        render_band(rows, stride, 4, &strips, &paint, &tables, Simd::Avx2, band as u32);
    }
    assert_eq!(serial, reversed);
    assert_ne!(serial, initial);
}

#[test]
fn the_reported_counts_are_the_pixels_that_were_drawn() {
    let tables = tables();
    let opaque = SolidPaint::new(levels(&tables, 1, 2, 3, 255), PixelFormat::Rgba8Premul, &tables);
    let strips = [
        Strip { x: 0, band: 0, width: 5, rows: 2, kind: StripKind::Uniform { offset: 0 } },
        Strip { x: 5, band: 0, width: 2, rows: 2, kind: StripKind::Alpha { offset: 2 } },
    ];
    let alphas = [255u8, 100, 1, 2, 3, 4];
    let stats = StripStats { bands: 1, alpha_strips: 1, uniform_strips: 1, alpha_pixels: 4 };
    let strips = Strips::from_parts(TileGeometry::new(8, 2), SurfaceSize::new(8, 2), &strips, &alphas, stats).expect("ordered");
    let mut data = vec![0u8; 8 * 2 * 4];
    let mut target = TargetMut::new(&mut data, 8, 2, PixelFormat::Rgba8Premul).expect("target");
    let fine = render_solid_paint(&mut target, &strips, &opaque, &tables, Simd::Avx2);
    assert_eq!(fine.pixels_stored, 5);
    assert_eq!(fine.pixels_blended, 5 + 4);
    assert_eq!(fine.simd, Simd::Avx2.resolve());
}

#[test]
fn only_the_bands_the_strips_reach_are_visited() {
    let strips = [
        Strip { x: 0, band: 2, width: 1, rows: 1, kind: StripKind::Uniform { offset: 0 } },
        Strip { x: 0, band: 3, width: 1, rows: 1, kind: StripKind::Uniform { offset: 0 } },
    ];
    let stats = StripStats::default();
    let strips = Strips::from_parts(TileGeometry::new(4, 2), SurfaceSize::new(4, 8), &strips, &[255], stats).expect("ordered");
    assert_eq!(reached_span(&strips, 32, 128), Some((2, 64, 128)));
    assert_eq!(reached_span(&strips, 32, 100), Some((2, 64, 100)));
    assert_eq!(reached_span(&strips, 32, 64), None);
    assert_eq!(reached_span(&strips, 0, 128), None);
    assert_eq!(reached_span(&strips, usize::MAX, usize::MAX), None);
}

/// The core of kernel agreement: the two kernels agree on every combination
/// of destination byte and coverage, not merely on the pictures a corpus
/// happens to contain.
#[test]
fn every_destination_and_coverage_blends_identically_on_both_paths() {
    let tables = tables();
    let coverage: Vec<u8> = (0..=255u8).collect();
    for format in [PixelFormat::Rgba8Premul, PixelFormat::Bgra8Premul] {
        for (r, g, b, a) in [
            (0, 0, 0, 255),
            (255, 255, 255, 255),
            (255, 0, 0, 255),
            (31, 97, 200, 128),
            (200, 10, 90, 1),
            (0, 0, 0, 0),
            (188, 188, 188, 128),
        ] {
            let paint = SolidPaint::new(levels(&tables, r, g, b, a), format, &tables);
            for destination in 0..=255u8 {
                let mut scalar = vec![destination; coverage.len() * 4];
                let mut vector = scalar.clone();
                blend_span(&mut scalar, &paint, &tables, &coverage, Simd::Scalar, format);
                blend_span(&mut vector, &paint, &tables, &coverage, Simd::Avx2, format);
                assert_eq!(scalar, vector, "dst {destination}, {format:?}, ({r}, {g}, {b}, {a})");
            }
        }
    }
}

/// The eight-lane kernel handles eight pixels at a time and the remainder
/// one by one, so the seam between them needs its own sweep.
#[test]
fn the_simd_tail_agrees_with_the_scalar_path() {
    let tables = tables();
    let format = PixelFormat::Rgba8Premul;
    let paint = SolidPaint::new(levels(&tables, 31, 97, 200, 200), format, &tables);
    for width in 1..40usize {
        let coverage: Vec<u8> = (0..width).map(|i| ((i * 37 + 11) % 256) as u8).collect();
        for destination in [0u8, 1, 17, 128, 200, 254, 255] {
            let mut scalar = vec![destination; width * 4];
            let mut vector = scalar.clone();
            blend_span(&mut scalar, &paint, &tables, &coverage, Simd::Scalar, format);
            blend_span(&mut vector, &paint, &tables, &coverage, Simd::Avx2, format);
            assert_eq!(scalar, vector, "width {width}, dst {destination}");
        }
    }
}

/// The u8 pipeline is a fast path for the linear `f32` model, so it has to
/// agree with it. This computes the reference in `f32` and compares.
#[test]
fn the_u8_pipeline_matches_an_f32_reference() {
    let tables = tables();
    let width = 256u32;
    for (r, g, b, a) in [(0, 0, 0, 255), (255, 255, 255, 255), (64, 160, 255, 255), (200, 40, 10, 128), (9, 240, 130, 40)] {
        for background in [0u8, 1, 64, 128, 200, 255] {
            let paint = SolidPaint::new(levels(&tables, r, g, b, a), PixelFormat::Rgba8Premul, &tables);
            let coverage: Vec<u8> = (0..width).map(|i| i as u8).collect();
            let mut data = vec![background; width as usize * 4];
            let mut striper = Striper::new();
            let strips = striper.from_coverage(&coverage, width);
            let mut target = TargetMut::new(&mut data, width, 1, PixelFormat::Rgba8Premul).expect("target");
            render_solid_paint(&mut target, &strips, &paint, &tables, Simd::Scalar);

            let source = from_srgb8(r, g, b, a);
            for (index, chunk) in data.chunks_exact(4).enumerate() {
                let cov = coverage[index] as f32 / 255.0;
                let inverse = 1.0 - source[3] * cov;
                for channel in 0..3 {
                    let reference = source[channel] * cov + srgb8_to_linear(background) * inverse;
                    let expected = linear_to_srgb8(reference);
                    let error = (chunk[channel] as i32 - expected as i32).abs();
                    assert!(
                        error <= 1,
                        "({r}, {g}, {b}, {a}) over {background} at coverage {}: got {} want {expected}",
                        coverage[index],
                        chunk[channel]
                    );
                }
            }
        }
    }
}
