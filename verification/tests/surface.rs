use otf_2d_engine::bench::sanitize;
use otf_2d_engine::render::admit_render;
use otf_2d_engine::{
    BlendMode, ColorSpace, FineStats, FineTables, LINEAR_LEVELS, PathVerb, Pipeline, PixelFormat, Pixmap, RenderError,
    RenderStats, Simd,
};

fn linear_tables() -> FineTables {
    let mut decode = [0u32; 256];
    for (byte, level) in decode.iter_mut().enumerate() {
        *level = ((byte as u32 * 4096) + 127) / 255;
    }
    let mut encode = [0u8; LINEAR_LEVELS];
    for (level, byte) in encode.iter_mut().enumerate() {
        *byte = ((level as u32 * 255 + 2048) / 4096) as u8;
    }
    FineTables::new(decode, &encode)
}

#[test]
fn the_vocabulary_defaults_are_the_common_case() {
    assert_eq!(BlendMode::default(), BlendMode::SrcOver);
    assert_eq!(ColorSpace::default(), ColorSpace::Srgb);
    assert_eq!(Pipeline::default(), Pipeline::Auto);
    assert_eq!(PixelFormat::default(), PixelFormat::Rgba8Premul);
    assert_eq!(Simd::default(), Simd::Scalar);
}

#[test]
fn every_verb_consumes_its_points() {
    assert_eq!(PathVerb::MoveTo.point_count(), 1);
    assert_eq!(PathVerb::LineTo.point_count(), 1);
    assert_eq!(PathVerb::QuadTo.point_count(), 2);
    assert_eq!(PathVerb::CurveTo.point_count(), 3);
    assert_eq!(PathVerb::ClosePath.point_count(), 0);
}

#[test]
fn every_verb_reads_back_from_its_byte() {
    let verbs = [PathVerb::MoveTo, PathVerb::LineTo, PathVerb::QuadTo, PathVerb::CurveTo, PathVerb::ClosePath];
    for (code, verb) in verbs.iter().enumerate() {
        assert_eq!(verb.to_u8(), code as u8);
        assert_eq!(PathVerb::from_u8(code as u8), Some(*verb));
    }
    assert_eq!(PathVerb::from_u8(5), None);
    assert_eq!(PathVerb::from_u8(255), None);
}

#[test]
fn a_render_must_match_its_target() {
    assert_eq!(admit_render((64, 32), (64, 32), Pipeline::Auto), Ok(()));
    assert_eq!(admit_render((64, 32), (64, 32), Pipeline::U8), Ok(()));
    assert_eq!(
        admit_render((64, 32), (32, 64), Pipeline::Auto),
        Err(RenderError::TargetSize { expected: (64, 32), found: (32, 64) })
    );
    assert_eq!(admit_render((64, 32), (64, 32), Pipeline::F32), Err(RenderError::UnsupportedPipeline(Pipeline::F32)));
    assert_eq!(
        admit_render((1, 1), (2, 2), Pipeline::F32),
        Err(RenderError::TargetSize { expected: (1, 1), found: (2, 2) })
    );
}

#[test]
fn render_counters_add_up() {
    let mut stats = RenderStats::start(Simd::Avx2);
    assert_eq!(stats, RenderStats { simd: Simd::Avx2, ..RenderStats::default() });
    stats.skip_draw();
    stats.add_segments(12);
    stats.add_fill(3, &FineStats { pixels_stored: 40, pixels_blended: 7, simd: Simd::Avx2 });
    stats.add_fill(1, &FineStats { pixels_stored: 0, pixels_blended: 5, simd: Simd::Avx2 });
    assert_eq!(stats.draws_skipped, 1);
    assert_eq!(stats.segments_flattened, 12);
    assert_eq!(stats.tiles_rasterized, 4);
    assert_eq!(stats.solid_pixels, 40);
    assert_eq!(stats.alpha_pixels, 12);
    assert_eq!(stats.draws_resolved, 2);
}

#[test]
fn path_hostile_characters_become_underscores() {
    assert_eq!(sanitize("fill"), "fill");
    assert_eq!(sanitize("solid_rect 1080p-v1.2"), "solid_rect 1080p-v1.2");
    assert_eq!(sanitize("a/b\\c:d"), "a_b_c_d");
    assert_eq!(sanitize("δx#"), "_x_");
    assert_eq!(sanitize(""), "");
}

#[test]
fn a_new_pixmap_is_transparent() {
    let pixmap = Pixmap::new(3, 2, PixelFormat::Bgra8Premul);
    assert_eq!(pixmap.width(), 3);
    assert_eq!(pixmap.height(), 2);
    assert_eq!(pixmap.format(), PixelFormat::Bgra8Premul);
    assert_eq!(pixmap.data().len(), 24);
    assert!(pixmap.data().iter().all(|&b| b == 0));
    assert_eq!(pixmap.pixel(2, 1), Some([0, 0, 0, 0]));
    assert_eq!(pixmap.pixel(3, 0), None);
    assert_eq!(pixmap.pixel(0, 2), None);
}

#[test]
fn a_filled_pixmap_holds_the_colour_in_its_format() {
    let tables = linear_tables();
    let mut pixmap = Pixmap::new(2, 2, PixelFormat::Bgra8Premul);
    pixmap.fill([4096, 2048, 0, 4096], &tables);
    assert_eq!(pixmap.pixel(1, 1), Some([0, 128, 255, 255]));
    let copy = pixmap.clone();
    assert_eq!(copy, pixmap);
    pixmap.data_mut()[0] = 7;
    assert_eq!(pixmap.pixel(0, 0), Some([7, 128, 255, 255]));
    let data = pixmap.into_data();
    assert_eq!(data.len(), 16);
}

#[test]
fn a_pixmap_lends_itself_as_a_target() {
    let tables = linear_tables();
    let mut pixmap = Pixmap::new(4, 3, PixelFormat::Rgba8Premul);
    {
        let mut target = pixmap.as_target();
        assert_eq!(target.width(), 4);
        assert_eq!(target.height(), 3);
        assert_eq!(target.stride(), 16);
        assert_eq!(target.format(), PixelFormat::Rgba8Premul);
        target.clear([0, 0, 4096, 4096], &tables);
        let row = target.row_mut(2).expect("row");
        assert_eq!(row.len(), 16);
        row[0] = 1;
        assert!(target.row_mut(3).is_none());
    }
    assert_eq!(pixmap.pixel(0, 2), Some([1, 0, 255, 255]));
    assert_eq!(pixmap.pixel(3, 0), Some([0, 0, 255, 255]));
    let mut bytes = vec![0u8; 8];
    assert!(Pixmap::borrowed(&mut bytes, 2, 1, PixelFormat::Rgba8Premul).is_ok());
    assert!(Pixmap::borrowed(&mut bytes, 3, 1, PixelFormat::Rgba8Premul).is_err());
}
