//! Stage 6 — fine rasterization: strips in, pixels out.
//!
//! The blend is entirely integer: fixed-point linear levels, multiplies, adds
//! and shifts, with every transfer function a table lookup. There are two
//! kernels — the scalar reference and an eight-lane kernel that handles eight
//! pixels per step — and they must agree bit for bit. Here that agreement is
//! proved for every set of tables on which each sRGB byte survives a decode
//! and re-encode, which [`FineTables::check_round_trip`] decides.
//!
//! The blend happens in linear light: a destination byte is decoded to a
//! linear level, composited, and encoded again.
use vstd::prelude::*;

use crate::pixels::{PixelFormat, channel_slot, encoded_color, with_pattern};
use crate::tables::{
    FineTables, LINEAR_HALF, LINEAR_SCALE, LINEAR_SHIFT, alpha_byte, alpha_level, clamp_level,
    lemma_shift_is_div,
};

verus! {

/// `value * factor` in fixed point, rounded to nearest.
pub open spec fn scale_spec(value: int, factor: int) -> int {
    (value * factor + 2048) / 4096
}

/// Scaling two linear levels gives a linear level.
pub proof fn lemma_scale_bounded(value: int, factor: int)
    requires
        0 <= value <= 4096,
        0 <= factor <= 4096,
    ensures
        0 <= scale_spec(value, factor) <= value,
        scale_spec(value, factor) <= factor,
        value * factor + 2048 <= 16779264,
{
    assert(0 <= value * factor <= value * 4096) by (nonlinear_arith)
        requires 0 <= value <= 4096, 0 <= factor <= 4096;
    assert(value * factor <= 4096 * factor) by (nonlinear_arith)
        requires 0 <= value <= 4096, 0 <= factor <= 4096;
    assert(value * factor <= 4096 * 4096) by (nonlinear_arith)
        requires 0 <= value <= 4096, 0 <= factor <= 4096;
}

/// Scaling by a full level is the identity.
pub proof fn lemma_scale_by_full(value: int)
    requires
        0 <= value,
    ensures
        scale_spec(value, 4096) == value,
        scale_spec(4096, value) == value,
{
    assert((value * 4096 + 2048) / 4096 == value) by (nonlinear_arith)
        requires 0 <= value;
    assert(4096 * value == value * 4096) by (nonlinear_arith);
}

/// `value * factor` in fixed point, rounded to nearest.
pub(crate) fn scale(value: u32, factor: u32) -> (scaled: u32)
    requires
        value <= LINEAR_SCALE,
        factor <= LINEAR_SCALE,
    ensures
        scaled == scale_spec(value as int, factor as int),
        scaled <= value,
        scaled <= factor,
{
    proof { lemma_scale_bounded(value as int, factor as int); }
    let product: u32 = value * factor + LINEAR_HALF;
    proof { lemma_shift_is_div(product); }
    product >> LINEAR_SHIFT
}

/// A stage 6 implementation.
#[derive(Debug, Clone, Copy, PartialEq, Eq, Hash, Structural)]
#[non_exhaustive]
pub enum Simd {
    /// The scalar kernel, one pixel at a time: the one every other kernel
    /// must match.
    Scalar,
    /// The eight-lane implementation, eight pixels per step. It performs the
    /// same integer operations in the same order as the reference, lane by
    /// lane.
    Avx2,
}

impl Default for Simd {
    fn default() -> (simd: Simd)
        ensures
            simd == Simd::Scalar,
    {
        Simd::Scalar
    }
}

impl Simd {
    /// The implementation to use by default: the eight-lane kernel.
    ///
    /// Both kernels are portable code here, so every implementation runs on
    /// every machine and the widest one is chosen.
    pub fn detect() -> (simd: Simd)
        ensures
            simd == Simd::Avx2,
            simd.is_available_spec(),
    {
        if Simd::Avx2.is_available() {
            Simd::Avx2
        } else {
            Simd::Scalar
        }
    }

    /// Whether the implementation can run on the machine at hand. The
    /// eight-lane kernel here is written in safe, portable integer code that
    /// needs no CPU extension, so every implementation can run on every
    /// machine.
    pub open spec fn is_available_spec(self) -> bool {
        match self {
            Simd::Scalar => true,
            Simd::Avx2 => true,
        }
    }

    /// Whether the implementation can run on the machine at hand: always, as
    /// neither kernel needs a CPU extension.
    pub fn is_available(self) -> (available: bool)
        ensures
            available == self.is_available_spec(),
    {
        match self {
            Simd::Scalar => true,
            Simd::Avx2 => true,
        }
    }

    /// This implementation if it can run, scalar otherwise.
    pub open spec fn resolved(self) -> Simd {
        if self.is_available_spec() { self } else { Simd::Scalar }
    }

    /// This implementation if it can run, scalar otherwise.
    pub fn resolve(self) -> (resolved: Simd)
        ensures
            resolved == self.resolved(),
            resolved.is_available_spec(),
    {
        if self.is_available() {
            self
        } else {
            Simd::Scalar
        }
    }
}

/// A solid paint, prepared for one target format.
///
/// Channels are stored in the target's byte order, as premultiplied linear
/// levels, so the inner loop never branches on format.
#[derive(Debug, Clone, Copy, PartialEq, Eq)]
pub struct SolidPaint {
    levels: [u32; 4],
    bytes: [u8; 4],
    opaque: bool,
}

impl SolidPaint {
    #[verifier::type_invariant]
    spec fn valid(self) -> bool {
        self.well_formed()
    }

    /// Every level is a linear level, and the paint is opaque exactly when
    /// its alpha level is full.
    pub open spec fn well_formed(self) -> bool {
        &&& forall|slot: int| 0 <= slot < 4 ==> #[trigger] self.level(slot) <= LINEAR_SCALE
        &&& self.opaque() == (self.level(3) >= LINEAR_SCALE)
    }

    /// The premultiplied linear level at target byte position `slot`.
    pub closed spec fn level(self, slot: int) -> u32 {
        self.levels@[slot]
    }

    /// The paint as target bytes.
    pub closed spec fn encoded(self) -> Seq<u8> {
        self.bytes@
    }

    pub closed spec fn opaque(self) -> bool {
        self.opaque
    }

    /// The paint's bytes are its levels encoded through `tables`.
    pub open spec fn prepared_with(self, tables: FineTables) -> bool {
        &&& forall|slot: int| 0 <= slot < 3 ==> #[trigger] self.encoded()[slot]
            == tables.encode_byte(clamp_level(self.level(slot) as int))
        &&& self.encoded()[3] == alpha_byte(self.level(3) as int)
        &&& self.encoded().len() == 4
    }

    /// Prepares a colour for a target.
    ///
    /// `levels` is the colour in the sRGB space as premultiplied linear levels
    /// (red, green, blue, alpha), each at most [`LINEAR_SCALE`].
    pub fn new(levels: [u32; 4], format: PixelFormat, tables: &FineTables) -> (paint: SolidPaint)
        requires
            forall|c: int| 0 <= c < 4 ==> #[trigger] levels@[c] <= LINEAR_SCALE,
        ensures
            forall|c: int| 0 <= c < 4 ==> #[trigger] paint.level(channel_slot(format, c)) == levels@[c],
            paint.encoded() == encoded_color(levels@, format, *tables),
            paint.prepared_with(*tables),
            paint.opaque() == (levels@[3] >= LINEAR_SCALE),
            paint.well_formed(),
    {
        let mut placed: [u32; 4] = [0u32; 4];
        let order = format.channel_order();
        let mut channel: usize = 0;
        while channel < 3
            invariant
                channel <= 3,
                forall|c: int| 0 <= c < 4 ==> #[trigger] levels@[c] <= LINEAR_SCALE,
                forall|c: int| 0 <= c < 3 ==> #[trigger] order@[c] == channel_slot(format, c),
                forall|c: int| 0 <= c < channel ==> #[trigger] placed@[channel_slot(format, c)] == levels@[c],
                forall|s: int| 0 <= s < 4 ==> #[trigger] placed@[s] <= LINEAR_SCALE,
            decreases 3 - channel,
        {
            placed[order[channel]] = levels[channel];
            channel = channel + 1;
        }
        placed[3] = levels[3];
        let mut bytes: [u8; 4] = [0u8; 4];
        bytes[0] = tables.encode(placed[0]);
        bytes[1] = tables.encode(placed[1]);
        bytes[2] = tables.encode(placed[2]);
        bytes[3] = tables.encode_alpha(placed[3]);
        let paint = SolidPaint { levels: placed, bytes, opaque: placed[3] >= LINEAR_SCALE };
        proof {
            assert forall|c: int| 0 <= c < 4 implies #[trigger] paint.level(channel_slot(format, c)) == levels@[c] by {
                if c < 3 {
                    assert(placed@[channel_slot(format, c)] == levels@[c]);
                }
            }
            assert forall|slot: int| 0 <= slot < 4 implies #[trigger] bytes@[slot]
                == encoded_color(levels@, format, *tables)[slot] by {
                if slot < 3 {
                    let c = channel_slot(format, slot);
                    assert(channel_slot(format, c) == slot);
                    assert(placed@[slot] == levels@[c]);
                }
            }
            assert(bytes@ =~= encoded_color(levels@, format, *tables));
        }
        proof { use_type_invariant(&paint); }
        paint
    }

    /// True when the paint covers what is beneath it completely.
    pub fn is_opaque(&self) -> (opaque: bool)
        ensures
            opaque == self.opaque(),
    {
        self.opaque
    }

    /// The colour as target bytes.
    pub fn bytes(&self) -> (bytes: [u8; 4])
        ensures
            bytes@ == self.encoded(),
    {
        self.bytes
    }

    /// The level at a byte position, with the paint's bound on it.
    fn level_at(&self, slot: usize) -> (level: u32)
        requires
            slot < 4,
        ensures
            level == self.level(slot as int),
            level <= LINEAR_SCALE,
    {
        proof { use_type_invariant(self); }
        self.levels[slot]
    }
}

/// Byte `slot` of a destination pixel holding `byte`, after source-over of
/// `paint` at coverage level `cov`, in fixed-point linear light.
pub open spec fn blend_byte(paint: SolidPaint, tables: FineTables, cov: int, slot: int, byte: u8) -> u8 {
    let alpha = scale_spec(paint.level(3) as int, cov);
    let inverse = 4096 - alpha;
    if slot < 3 {
        let source = scale_spec(paint.level(slot) as int, cov);
        let blended = source + scale_spec(tables.decode_level(byte as int) as int, inverse);
        tables.encode_byte(clamp_level(blended))
    } else {
        let blended = alpha + scale_spec(alpha_level(byte as int), inverse);
        alpha_byte(blended) as u8
    }
}

/// A span of pixels after blending: pixel `j` is composited at coverage
/// level `levels(j)` when `touched(j)`, and left alone otherwise.
pub open spec fn blend_span(
    bytes: Seq<u8>,
    paint: SolidPaint,
    tables: FineTables,
    levels: spec_fn(int) -> int,
    touched: spec_fn(int) -> bool,
) -> Seq<u8> {
    Seq::new(bytes.len(), |i: int|
        if touched(i / 4) { blend_byte(paint, tables, levels(i / 4), i % 4, bytes[i]) } else { bytes[i] })
}

/// A span after blending every pixel at the coverage of byte `coverage`.
pub open spec fn uniform_result(span: Seq<u8>, paint: SolidPaint, tables: FineTables, coverage: u8) -> Seq<u8> {
    blend_span(span, paint, tables, |j: int| alpha_level(coverage as int), |j: int| true)
}

/// A span after blending pixel `j` at the coverage of byte `coverage[j]`, on
/// the scalar kernel (`lanes` false) or the eight-lane kernel.
pub open spec fn coverage_result(span: Seq<u8>, paint: SolidPaint, tables: FineTables, coverage: Seq<u8>, lanes: bool) -> Seq<u8> {
    blend_span(
        span,
        paint,
        tables,
        |j: int| alpha_level(coverage[j] as int),
        |j: int| coverage_touches(coverage, lanes, j),
    )
}

/// At zero coverage a destination byte comes back bit-identical, on tables
/// under which every sRGB byte survives a decode and re-encode.
pub proof fn lemma_blend_at_zero_is_identity(paint: SolidPaint, tables: FineTables, slot: int, byte: u8)
    requires
        tables.round_trips(),
        0 <= slot < 4,
    ensures
        blend_byte(paint, tables, 0, slot, byte) == byte,
{
    assert(scale_spec(paint.level(3) as int, 0) == 0);
    if slot < 3 {
        assert(scale_spec(paint.level(slot) as int, 0) == 0);
        lemma_scale_by_full(tables.decode_level(byte as int) as int);
        assert(tables.encode_byte(clamp_level(tables.decode_level(byte as int) as int)) == byte);
    } else {
        crate::tables::lemma_alpha_round_trip(byte);
        lemma_scale_by_full(alpha_level(byte as int));
    }
}

/// The eight-lane kernel and the scalar reference produce the same bytes for
/// every destination span and every run of coverage: the lanes the eight-lane
/// kernel blends at zero coverage come back unchanged.
pub proof fn lemma_kernels_agree(span: Seq<u8>, paint: SolidPaint, tables: FineTables, coverage: Seq<u8>)
    requires
        tables.round_trips(),
        span.len() == 4 * coverage.len(),
    ensures
        coverage_result(span, paint, tables, coverage, true) == coverage_result(span, paint, tables, coverage, false),
{
    let lanes = coverage_result(span, paint, tables, coverage, true);
    let scalar = coverage_result(span, paint, tables, coverage, false);
    assert forall|i: int| 0 <= i < span.len() implies lanes[i] == scalar[i] by {
        if coverage[i / 4] == 0 {
            lemma_blend_at_zero_is_identity(paint, tables, i % 4, span[i]);
        }
    }
    assert(lanes =~= scalar);
}

/// Compositing at zero coverage leaves the destination bit-identical, on
/// either kernel, whether the coverage is constant or per pixel.
pub proof fn lemma_zero_coverage_is_identity(
    span: Seq<u8>,
    paint: SolidPaint,
    tables: FineTables,
    coverage: Seq<u8>,
    lanes: bool,
)
    requires
        tables.round_trips(),
        span.len() == 4 * coverage.len(),
        forall|j: int| 0 <= j < coverage.len() ==> #[trigger] coverage[j] == 0,
    ensures
        coverage_result(span, paint, tables, coverage, lanes) == span,
        uniform_result(span, paint, tables, 0) == span,
{
    let per_pixel = coverage_result(span, paint, tables, coverage, lanes);
    let constant = uniform_result(span, paint, tables, 0);
    assert forall|i: int| 0 <= i < span.len() implies per_pixel[i] == span[i] && constant[i] == span[i] by {
        assert(coverage[i / 4] == 0);
        lemma_blend_at_zero_is_identity(paint, tables, i % 4, span[i]);
    }
    assert(per_pixel =~= span);
    assert(constant =~= span);
}

/// An opaque paint at full coverage writes exactly the paint's own bytes to
/// every pixel, whatever was beneath: the blend agrees with a plain store of
/// the prepared colour.
pub proof fn lemma_full_opaque_coverage_is_store(span: Seq<u8>, paint: SolidPaint, tables: FineTables)
    requires
        paint.well_formed(),
        paint.opaque(),
        paint.prepared_with(tables),
        span.len() % 4 == 0,
    ensures
        uniform_result(span, paint, tables, 255) == with_pattern(span, 0, span.len() as int / 4, paint.encoded()),
{
    let blended = uniform_result(span, paint, tables, 255);
    let stored = with_pattern(span, 0, span.len() as int / 4, paint.encoded());
    assert(alpha_level(255) == 4096);
    assert(paint.level(3) == 4096);
    lemma_scale_by_full(4096);
    assert forall|i: int| 0 <= i < span.len() implies blended[i] == stored[i] by {
        let slot = i % 4;
        if slot < 3 {
            lemma_scale_by_full(paint.level(slot) as int);
            assert(scale_spec(tables.decode_level(span[i] as int) as int, 0) == 0);
        } else {
            assert(scale_spec(alpha_level(span[i] as int), 0) == 0);
        }
    }
    assert(blended =~= stored);
}

/// One pixel of source-over, in fixed-point linear light: the four bytes at
/// `at` are blended with `paint` at coverage level `cov`.
///
/// This is the reference every other path must reproduce exactly.
pub(crate) fn blend_pixel(span: &mut [u8], at: usize, paint: &SolidPaint, tables: &FineTables, cov: u32)
    requires
        at + 4 <= old(span)@.len(),
        cov <= LINEAR_SCALE,
    ensures
        final(span)@.len() == old(span)@.len(),
        forall|i: int| 0 <= i < old(span)@.len() ==> #[trigger] final(span)@[i] == (
            if at <= i < at + 4 {
                blend_byte(*paint, *tables, cov as int, i - at, old(span)@[i])
            } else {
                old(span)@[i]
            }),
{
    let len = span.len();
    let alpha = scale(paint.level_at(3), cov);
    let inverse = LINEAR_SCALE - alpha;
    let mut slot: usize = 0;
    while slot < 3
        invariant
            slot <= 3,
            len == span@.len(),
            at + 4 <= span@.len(),
            span@.len() == old(span)@.len(),
            cov <= LINEAR_SCALE,
            alpha == scale_spec(paint.level(3) as int, cov as int),
            inverse == 4096 - alpha,
            alpha <= LINEAR_SCALE,
            forall|i: int| 0 <= i < span@.len() ==> #[trigger] span@[i] == (
                if at <= i < at + slot {
                    blend_byte(*paint, *tables, cov as int, i - at, old(span)@[i])
                } else {
                    old(span)@[i]
                }),
        decreases 3 - slot,
    {
        let source = scale(paint.level_at(slot), cov);
        let destination = tables.decode(span[at + slot]);
        let blended = source + scale(destination, inverse);
        let clamped = if blended > LINEAR_SCALE { LINEAR_SCALE } else { blended };
        span[at + slot] = tables.encode(clamped);
        slot = slot + 1;
    }
    let destination = tables.decode_alpha(span[at + 3]);
    proof { crate::tables::lemma_alpha_round_trip(old(span)@[at + 3 as int]); }
    let blended = alpha + scale(destination, inverse);
    let clamped = if blended > LINEAR_SCALE { LINEAR_SCALE } else { blended };
    span[at + 3] = tables.encode_alpha(clamped);
}

/// Byte `i` of a span belongs to pixel `i / 4` at channel `i % 4`.
proof fn lemma_pixel_of(i: int, j: int)
    requires
        4 * j <= i < 4 * j + 4,
    ensures
        i / 4 == j,
        i % 4 == i - 4 * j,
{
    vstd::arithmetic::div_mod::lemma_fundamental_div_mod_converse(i, 4, j, i - 4 * j);
}

/// A pattern laid from a pixel-aligned start reads the pixel at `i % 4`.
proof fn lemma_aligned_pattern(i: int, start: int)
    requires
        start % 4 == 0,
        start <= i,
    ensures
        (i - start) % 4 == i % 4,
{
    vstd::arithmetic::div_mod::lemma_fundamental_div_mod(start, 4);
    vstd::arithmetic::div_mod::lemma_fundamental_div_mod(i, 4);
    vstd::arithmetic::div_mod::lemma_fundamental_div_mod_converse(i - start, 4, i / 4 - start / 4, i % 4);
}

/// Pixels per step of the eight-lane kernel.
pub const LANES: usize = 8;

/// Stores a constant pixel across the span.
pub(crate) fn fill(span: &mut [u8], bytes: [u8; 4], simd: Simd)
    requires
        old(span)@.len() % 4 == 0,
    ensures
        final(span)@ == with_pattern(old(span)@, 0, old(span)@.len() as int / 4, bytes@),
{
    if simd == Simd::Avx2 {
        fill_lanes(span, bytes);
        return;
    }
    let pixels = span.len() / 4;
    crate::pixels::fill_pattern(span, 0, pixels, bytes);
}

/// [`fill`], eight pixels per step and the remainder one at a time.
fn fill_lanes(span: &mut [u8], bytes: [u8; 4])
    requires
        old(span)@.len() % 4 == 0,
    ensures
        final(span)@ == with_pattern(old(span)@, 0, old(span)@.len() as int / 4, bytes@),
{
    let len = span.len();
    let pixels = len / 4;
    let vectors = pixels / LANES;
    let mut vector: usize = 0;
    while vector < vectors
        invariant
            len == span@.len(),
            span@.len() == old(span)@.len(),
            pixels == len / 4,
            vectors == pixels / 8,
            vector <= vectors,
            span@ == with_pattern(old(span)@, 0, 8 * vector as int, bytes@),
        decreases vectors - vector,
    {
        let ghost before = span@;
        crate::pixels::fill_pattern(span, vector * LANES * 4, LANES, bytes);
        proof {
            assert forall|i: int| 0 <= i < span@.len() implies #[trigger] span@[i]
                == with_pattern(old(span)@, 0, 8 * (vector + 1), bytes@)[i] by {
                if 32 * vector <= i < 32 * vector + 32 {
                    lemma_aligned_pattern(i, 32 * vector as int);
                }
            }
            assert(span@ =~= with_pattern(old(span)@, 0, 8 * (vector + 1), bytes@));
        }
        vector = vector + 1;
    }
    let ghost before = span@;
    crate::pixels::fill_pattern(span, vectors * LANES * 4, pixels - vectors * LANES, bytes);
    proof {
        assert forall|i: int| 0 <= i < span@.len() implies #[trigger] span@[i]
            == with_pattern(old(span)@, 0, pixels as int, bytes@)[i] by {
            if 32 * vectors <= i < 4 * pixels {
                lemma_aligned_pattern(i, 32 * vectors as int);
            }
        }
        assert(span@ =~= with_pattern(old(span)@, 0, pixels as int, bytes@));
    }
}

/// The byte-to-byte map a constant-coverage span collapses to.
///
/// Coverage is constant across the span, so each output byte is a pure
/// function of the input byte in the same channel: the blend becomes one
/// table per channel, built once and applied with no arithmetic at all.
struct UniformMap {
    channels: [[u8; 256]; 4],
}

/// Span width, in pixels, past which collapsing the blend into a
/// byte-to-byte map beats blending pixel by pixel.
pub const UNIFORM_MAP_WIDTH: usize = 96;

/// The map of one channel: every destination byte blended at coverage `cov`.
fn map_channel(paint: &SolidPaint, tables: &FineTables, cov: u32, slot: usize) -> (map: [u8; 256])
    requires
        cov <= LINEAR_SCALE,
        slot < 4,
    ensures
        forall|b: int| 0 <= b < 256 ==> #[trigger] map@[b] == blend_byte(*paint, *tables, cov as int, slot as int, b as u8),
{
    let alpha = scale(paint.level_at(3), cov);
    let inverse = LINEAR_SCALE - alpha;
    let source = scale(paint.level_at(slot), cov);
    let mut map: [u8; 256] = [0u8; 256];
    let mut byte: usize = 0;
    while byte < 256
        invariant
            byte <= 256,
            slot < 4,
            cov <= LINEAR_SCALE,
            alpha == scale_spec(paint.level(3) as int, cov as int),
            alpha <= LINEAR_SCALE,
            inverse == 4096 - alpha,
            source == scale_spec(paint.level(slot as int) as int, cov as int),
            source <= LINEAR_SCALE,
            forall|b: int| 0 <= b < byte ==> #[trigger] map@[b] == blend_byte(*paint, *tables, cov as int, slot as int, b as u8),
        decreases 256 - byte,
    {
        if slot < 3 {
            let destination = tables.decode(byte as u8);
            let blended = source + scale(destination, inverse);
            let clamped = if blended > LINEAR_SCALE { LINEAR_SCALE } else { blended };
            map[byte] = tables.encode(clamped);
        } else {
            let destination = tables.decode_alpha(byte as u8);
            proof { crate::tables::lemma_alpha_round_trip(byte as u8); }
            let blended = alpha + scale(destination, inverse);
            let clamped = if blended > LINEAR_SCALE { LINEAR_SCALE } else { blended };
            map[byte] = tables.encode_alpha(clamped);
        }
        byte = byte + 1;
    }
    map
}

impl UniformMap {
    spec fn blends(self, paint: SolidPaint, tables: FineTables, cov: int) -> bool {
        forall|k: int, b: int| 0 <= k < 4 && 0 <= b < 256 ==> #[trigger] self.channels[k]@[b]
            == blend_byte(paint, tables, cov, k, b as u8)
    }

    fn build(paint: &SolidPaint, tables: &FineTables, cov: u32) -> (map: UniformMap)
        requires
            cov <= LINEAR_SCALE,
        ensures
            map.blends(*paint, *tables, cov as int),
    {
        let red = map_channel(paint, tables, cov, 0);
        let green = map_channel(paint, tables, cov, 1);
        let blue = map_channel(paint, tables, cov, 2);
        let alpha = map_channel(paint, tables, cov, 3);
        let map = UniformMap { channels: [red, green, blue, alpha] };
        assert forall|k: int, b: int| 0 <= k < 4 && 0 <= b < 256 implies #[trigger] map.channels[k]@[b]
            == blend_byte(*paint, *tables, cov as int, k, b as u8) by {
            if k == 0 { assert(map.channels[k] == red); }
            else if k == 1 { assert(map.channels[k] == green); }
            else if k == 2 { assert(map.channels[k] == blue); }
            else { assert(map.channels[k] == alpha); }
        }
        map
    }

    fn apply(&self, span: &mut [u8])
        ensures
            final(span)@.len() == old(span)@.len(),
            forall|i: int| 0 <= i < old(span)@.len() ==> #[trigger] final(span)@[i]
                == self.channels[i % 4]@[old(span)@[i] as int],
    {
        let len = span.len();
        let mut i: usize = 0;
        while i < len
            invariant
                len == span@.len(),
                span@.len() == old(span)@.len(),
                i <= len,
                forall|j: int| 0 <= j < len ==> #[trigger] span@[j] == (
                    if j < i { self.channels[j % 4]@[old(span)@[j] as int] } else { old(span)@[j] }),
            decreases len - i,
        {
            let channel = &self.channels[i % 4];
            span[i] = channel[span[i] as usize];
            i = i + 1;
        }
    }
}

/// Blends a constant coverage byte across the span.
pub(crate) fn blend_uniform(span: &mut [u8], paint: &SolidPaint, tables: &FineTables, coverage: u8, simd: Simd)
    requires
        old(span)@.len() % 4 == 0,
    ensures
        final(span)@ == uniform_result(old(span)@, *paint, *tables, coverage),
{
    let cov = tables.coverage(coverage);
    proof { crate::tables::lemma_alpha_round_trip(coverage); }
    let ghost goal = blend_span(old(span)@, *paint, *tables, |j: int| alpha_level(coverage as int), |j: int| true);
    if span.len() / 4 >= UNIFORM_MAP_WIDTH {
        let map = UniformMap::build(paint, tables, cov);
        map.apply(span);
        assert(span@ =~= goal);
        return;
    }
    if simd == Simd::Avx2 {
        blend_uniform_lanes(span, paint, tables, coverage);
        return;
    }
    let len = span.len();
    let pixels = len / 4;
    let mut pixel: usize = 0;
    while pixel < pixels
        invariant
            len == span@.len(),
            span@.len() == old(span)@.len(),
            len % 4 == 0,
            pixels == len / 4,
            pixel <= pixels,
            cov == alpha_level(coverage as int),
            cov <= LINEAR_SCALE,
            goal == blend_span(old(span)@, *paint, *tables, |j: int| alpha_level(coverage as int), |j: int| true),
            forall|i: int| 0 <= i < len ==> #[trigger] span@[i] == (
                if i < 4 * pixel { goal[i] } else { old(span)@[i] }),
        decreases pixels - pixel,
    {
        blend_pixel(span, 4 * pixel, paint, tables, cov);
        proof {
            assert forall|i: int| 4 * pixel <= i < 4 * pixel + 4 implies #[trigger] span@[i] == goal[i] by {
                lemma_pixel_of(i, pixel as int);
            }
        }
        pixel = pixel + 1;
    }
    assert(span@ =~= goal);
}

/// A destination byte after compositing a source level over it, with the
/// destination scaled by `inverse`: what one lane of the eight-lane kernel
/// computes for one channel.
pub open spec fn lane_byte(tables: FineTables, source: int, inverse: int, slot: int, byte: u8) -> u8 {
    if slot < 3 {
        tables.encode_byte(clamp_level(source + scale_spec(tables.decode_level(byte as int) as int, inverse)))
    } else {
        alpha_byte(source + scale_spec(alpha_level(byte as int), inverse)) as u8
    }
}

/// The scalar blend of a pixel is the lane blend with the paint's levels
/// scaled by coverage as sources.
proof fn lemma_blend_is_lane(paint: SolidPaint, tables: FineTables, cov: int, slot: int, byte: u8)
    requires
        0 <= slot < 4,
    ensures
        blend_byte(paint, tables, cov, slot, byte) == lane_byte(
            tables,
            scale_spec(paint.level(slot) as int, cov),
            4096 - scale_spec(paint.level(3) as int, cov),
            slot,
            byte,
        ),
{
}

/// Looks up one packed encode-table byte: the level's high bits select a
/// word and its low two bits the byte within it.
fn encode_level(encode: &Vec<u32>, level: u32) -> (byte: u8)
    requires
        level <= LINEAR_SCALE,
        encode@.len() == crate::tables::ENCODE_WORDS,
    ensures
        byte == crate::tables::unpack(encode@[level as int / 4], level as int % 4),
{
    assert(level >> 2u32 == level / 4) by (bit_vector);
    let word = encode[(level >> 2) as usize];
    let shift: u32 = (level & 3) << 3;
    assert((level & 3u32) << 3u32 == ((level % 4) * 8) as u32) by (bit_vector);
    assert(((word >> shift) & 0xffu32) as u8 == (word >> shift) as u8) by (bit_vector);
    ((word >> shift) & 0xff) as u8
}

/// One lane of [`blend_chunk`]: the pixel at `at`, composited with per-channel
/// `sources` and the destination scaled by `inverse`.
fn blend_lane(
    span: &mut [u8],
    at: usize,
    tables: &FineTables,
    decode: &Vec<u32>,
    alpha_table: &Vec<u32>,
    encode: &Vec<u32>,
    sources: [u32; 4],
    inverse: u32,
)
    requires
        at + 4 <= old(span)@.len(),
        forall|k: int| 0 <= k < 4 ==> #[trigger] sources@[k] <= LINEAR_SCALE,
        inverse <= LINEAR_SCALE,
        decode@.len() == 256,
        alpha_table@.len() == 256,
        encode@.len() == crate::tables::ENCODE_WORDS,
        forall|b: int| 0 <= b < 256 ==> #[trigger] decode@[b] == tables.decode_level(b),
        forall|b: int| 0 <= b < 256 ==> #[trigger] decode@[b] <= LINEAR_SCALE,
        forall|b: int| 0 <= b < 256 ==> #[trigger] alpha_table@[b] == alpha_level(b),
        forall|l: int| 0 <= l < crate::tables::LINEAR_LEVELS ==> #[trigger] crate::tables::unpack(encode@[l / 4], l % 4) == tables.encode_byte(l),
    ensures
        final(span)@.len() == old(span)@.len(),
        forall|i: int| 0 <= i < old(span)@.len() ==> #[trigger] final(span)@[i] == (
            if at <= i < at + 4 {
                lane_byte(*tables, sources@[i - at] as int, inverse as int, i - at, old(span)@[i])
            } else {
                old(span)@[i]
            }),
{
    let len = span.len();
    let mut slot: usize = 0;
    while slot < 3
        invariant
            slot <= 3,
            len == span@.len(),
            at + 4 <= len,
            span@.len() == old(span)@.len(),
            forall|k: int| 0 <= k < 4 ==> #[trigger] sources@[k] <= LINEAR_SCALE,
            inverse <= LINEAR_SCALE,
            decode@.len() == 256,
            encode@.len() == crate::tables::ENCODE_WORDS,
            forall|b: int| 0 <= b < 256 ==> #[trigger] decode@[b] == tables.decode_level(b),
            forall|b: int| 0 <= b < 256 ==> #[trigger] decode@[b] <= LINEAR_SCALE,
            forall|l: int| 0 <= l < crate::tables::LINEAR_LEVELS ==> #[trigger] crate::tables::unpack(encode@[l / 4], l % 4) == tables.encode_byte(l),
            forall|i: int| 0 <= i < len ==> #[trigger] span@[i] == (
                if at <= i < at + slot {
                    lane_byte(*tables, sources@[i - at] as int, inverse as int, i - at, old(span)@[i])
                } else {
                    old(span)@[i]
                }),
        decreases 3 - slot,
    {
        let current = decode[span[at + slot] as usize];
        let blended = sources[slot] + scale(current, inverse);
        let clamped = if blended > LINEAR_SCALE { LINEAR_SCALE } else { blended };
        span[at + slot] = encode_level(encode, clamped);
        slot = slot + 1;
    }
    let current = alpha_table[span[at + 3] as usize];
    proof { crate::tables::lemma_alpha_round_trip(old(span)@[at + 3 as int]); }
    let blended = sources[3] + scale(current, inverse);
    let clamped = if blended > LINEAR_SCALE { LINEAR_SCALE } else { blended };
    let product: u32 = clamped * 255 + LINEAR_HALF;
    proof { lemma_shift_is_div(product); }
    span[at + 3] = (product >> LINEAR_SHIFT) as u8;
}

/// Blends eight pixels from `at`, with per-lane, per-channel source levels
/// already scaled by coverage and per-lane destination scales.
fn blend_chunk(span: &mut [u8], at: usize, tables: &FineTables, sources: [[u32; 8]; 4], inverse: [u32; 8])
    requires
        at + 32 <= old(span)@.len(),
        forall|k: int, l: int| 0 <= k < 4 && 0 <= l < 8 ==> #[trigger] sources@[k]@[l] <= LINEAR_SCALE,
        forall|l: int| 0 <= l < 8 ==> #[trigger] inverse@[l] <= LINEAR_SCALE,
    ensures
        final(span)@.len() == old(span)@.len(),
        forall|i: int| 0 <= i < old(span)@.len() ==> #[trigger] final(span)@[i] == (
            if at <= i < at + 32 {
                lane_byte(
                    *tables,
                    sources@[(i - at) % 4]@[(i - at) / 4] as int,
                    inverse@[(i - at) / 4] as int,
                    (i - at) % 4,
                    old(span)@[i],
                )
            } else {
                old(span)@[i]
            }),
{
    let (decode, alpha_table, encode) = tables.raw();
    let len = span.len();
    let mut lane: usize = 0;
    while lane < LANES
        invariant
            lane <= 8,
            len == span@.len(),
            at + 32 <= len,
            span@.len() == old(span)@.len(),
            forall|k: int, l: int| 0 <= k < 4 && 0 <= l < 8 ==> #[trigger] sources@[k]@[l] <= LINEAR_SCALE,
            forall|l: int| 0 <= l < 8 ==> #[trigger] inverse@[l] <= LINEAR_SCALE,
            decode@.len() == 256,
            alpha_table@.len() == 256,
            encode@.len() == crate::tables::ENCODE_WORDS,
            forall|b: int| 0 <= b < 256 ==> #[trigger] decode@[b] == tables.decode_level(b),
            forall|b: int| 0 <= b < 256 ==> #[trigger] decode@[b] <= LINEAR_SCALE,
            forall|b: int| 0 <= b < 256 ==> #[trigger] alpha_table@[b] == alpha_level(b),
            forall|l: int| 0 <= l < crate::tables::LINEAR_LEVELS ==> #[trigger] crate::tables::unpack(encode@[l / 4], l % 4) == tables.encode_byte(l),
            forall|i: int| 0 <= i < len ==> #[trigger] span@[i] == (
                if at <= i < at + 4 * lane {
                    lane_byte(
                        *tables,
                        sources@[(i - at) % 4]@[(i - at) / 4] as int,
                        inverse@[(i - at) / 4] as int,
                        (i - at) % 4,
                        old(span)@[i],
                    )
                } else {
                    old(span)@[i]
                }),
        decreases 8 - lane,
    {
        let lane_sources: [u32; 4] = [sources[0][lane], sources[1][lane], sources[2][lane], sources[3][lane]];
        blend_lane(span, at + 4 * lane, tables, decode, alpha_table, encode, lane_sources, inverse[lane]);
        proof {
            assert forall|i: int| at + 4 * lane <= i < at + 4 * lane + 4 implies #[trigger] span@[i] == lane_byte(
                *tables,
                sources@[(i - at) % 4]@[(i - at) / 4] as int,
                inverse@[(i - at) / 4] as int,
                (i - at) % 4,
                old(span)@[i],
            ) by {
                lemma_pixel_of(i - at, lane as int);
            }
        }
        lane = lane + 1;
    }
}

/// Eight copies of a level.
fn splat(value: u32) -> (lanes: [u32; 8])
    ensures
        forall|l: int| 0 <= l < 8 ==> #[trigger] lanes@[l] == value,
{
    [value; 8]
}

/// [`blend_uniform`], eight pixels per step and the remainder one at a time.
fn blend_uniform_lanes(span: &mut [u8], paint: &SolidPaint, tables: &FineTables, coverage: u8)
    requires
        old(span)@.len() % 4 == 0,
    ensures
        final(span)@ == uniform_result(old(span)@, *paint, *tables, coverage),
{
    let ghost goal = blend_span(old(span)@, *paint, *tables, |j: int| alpha_level(coverage as int), |j: int| true);
    let cov = tables.coverage(coverage);
    proof { crate::tables::lemma_alpha_round_trip(coverage); }
    let alpha = scale(paint.level_at(3), cov);
    let inverse = LINEAR_SCALE - alpha;
    let sources: [[u32; 8]; 4] = [
        splat(scale(paint.level_at(0), cov)),
        splat(scale(paint.level_at(1), cov)),
        splat(scale(paint.level_at(2), cov)),
        splat(alpha),
    ];
    let inverse_lanes = splat(inverse);
    let len = span.len();
    let pixels = len / 4;
    let vectors = pixels / LANES;
    let mut vector: usize = 0;
    while vector < vectors
        invariant
            len == span@.len(),
            span@.len() == old(span)@.len(),
            len % 4 == 0,
            pixels == len / 4,
            vectors == pixels / 8,
            vector <= vectors,
            cov == alpha_level(coverage as int),
            cov <= LINEAR_SCALE,
            goal == blend_span(old(span)@, *paint, *tables, |j: int| alpha_level(coverage as int), |j: int| true),
            forall|k: int, l: int| 0 <= k < 4 && 0 <= l < 8 ==> #[trigger] sources@[k]@[l]
                == scale_spec(paint.level(k) as int, cov as int),
            forall|k: int, l: int| 0 <= k < 4 && 0 <= l < 8 ==> #[trigger] sources@[k]@[l] <= LINEAR_SCALE,
            forall|l: int| 0 <= l < 8 ==> #[trigger] inverse_lanes@[l] == 4096 - scale_spec(paint.level(3) as int, cov as int),
            forall|l: int| 0 <= l < 8 ==> #[trigger] inverse_lanes@[l] <= LINEAR_SCALE,
            forall|i: int| 0 <= i < len ==> #[trigger] span@[i] == (
                if i < 32 * vector { goal[i] } else { old(span)@[i] }),
        decreases vectors - vector,
    {
        let at = vector * LANES * 4;
        blend_chunk(span, at, tables, sources, inverse_lanes);
        proof {
            assert forall|i: int| at <= i < at + 32 implies #[trigger] span@[i] == goal[i] by {
                let j = (i - at) / 4;
                lemma_pixel_of(i - at, j);
                lemma_pixel_of(i, vector * 8 + j);
                lemma_blend_is_lane(*paint, *tables, cov as int, (i - at) % 4, old(span)@[i]);
            }
        }
        vector = vector + 1;
    }
    let mut pixel: usize = vectors * LANES;
    while pixel < pixels
        invariant
            len == span@.len(),
            span@.len() == old(span)@.len(),
            len % 4 == 0,
            pixels == len / 4,
            pixel <= pixels,
            cov == alpha_level(coverage as int),
            cov <= LINEAR_SCALE,
            goal == blend_span(old(span)@, *paint, *tables, |j: int| alpha_level(coverage as int), |j: int| true),
            forall|i: int| 0 <= i < len ==> #[trigger] span@[i] == (
                if i < 4 * pixel { goal[i] } else { old(span)@[i] }),
        decreases pixels - pixel,
    {
        blend_pixel(span, 4 * pixel, paint, tables, cov);
        proof {
            assert forall|i: int| 4 * pixel <= i < 4 * pixel + 4 implies #[trigger] span@[i] == goal[i] by {
                lemma_pixel_of(i, pixel as int);
            }
        }
        pixel = pixel + 1;
    }
    assert(span@ =~= goal);
}

/// Whether a per-pixel-coverage blend writes pixel `j` of a span with
/// `coverage`: every pixel with coverage, and — on the eight-lane kernel —
/// also every pixel of a whole step of eight, whose lanes are blended
/// together whatever their coverage.
pub open spec fn coverage_touches(coverage: Seq<u8>, lanes: bool, j: int) -> bool {
    coverage[j] != 0 || (lanes && j < 8 * (coverage.len() / 8))
}

/// Blends per-pixel coverage across the span: pixel `j` at coverage byte
/// `coverage[j]`.
pub(crate) fn blend_coverage(span: &mut [u8], paint: &SolidPaint, tables: &FineTables, coverage: &[u8], simd: Simd)
    requires
        old(span)@.len() == 4 * coverage@.len(),
    ensures
        final(span)@ == coverage_result(old(span)@, *paint, *tables, coverage@, simd == Simd::Avx2),
{
    if simd == Simd::Avx2 {
        blend_coverage_lanes(span, paint, tables, coverage);
        return;
    }
    let ghost goal = blend_span(
        old(span)@,
        *paint,
        *tables,
        |j: int| alpha_level(coverage@[j] as int),
        |j: int| coverage_touches(coverage@, false, j),
    );
    let len = span.len();
    let pixels = coverage.len();
    let mut pixel: usize = 0;
    while pixel < pixels
        invariant
            len == span@.len(),
            span@.len() == old(span)@.len(),
            len == 4 * pixels,
            pixels == coverage@.len(),
            pixel <= pixels,
            goal == blend_span(
                old(span)@,
                *paint,
                *tables,
                |j: int| alpha_level(coverage@[j] as int),
                |j: int| coverage_touches(coverage@, false, j),
            ),
            forall|i: int| 0 <= i < len ==> #[trigger] span@[i] == (
                if i < 4 * pixel { goal[i] } else { old(span)@[i] }),
        decreases pixels - pixel,
    {
        let alpha = coverage[pixel];
        if alpha != 0 {
            let cov = tables.coverage(alpha);
            proof { crate::tables::lemma_alpha_round_trip(alpha); }
            blend_pixel(span, 4 * pixel, paint, tables, cov);
        }
        proof {
            assert forall|i: int| 4 * pixel <= i < 4 * pixel + 4 implies #[trigger] span@[i] == goal[i] by {
                lemma_pixel_of(i, pixel as int);
            }
        }
        pixel = pixel + 1;
    }
    assert(span@ =~= goal);
}

/// Eight coverage bytes from `offset` as linear levels, read through the
/// alpha table.
fn gather_coverage(alpha_table: &Vec<u32>, coverage: &[u8], offset: usize) -> (levels: [u32; 8])
    requires
        offset + 8 <= coverage@.len(),
        alpha_table@.len() == 256,
        forall|b: int| 0 <= b < 256 ==> #[trigger] alpha_table@[b] == alpha_level(b),
    ensures
        forall|l: int| 0 <= l < 8 ==> #[trigger] levels@[l] == alpha_level(coverage@[offset + l] as int),
        forall|l: int| 0 <= l < 8 ==> #[trigger] levels@[l] <= LINEAR_SCALE,
{
    let total = coverage.len();
    let mut levels: [u32; 8] = [0u32; 8];
    let mut lane: usize = 0;
    while lane < LANES
        invariant
            lane <= 8,
            total == coverage@.len(),
            offset + 8 <= coverage@.len(),
            alpha_table@.len() == 256,
            forall|b: int| 0 <= b < 256 ==> #[trigger] alpha_table@[b] == alpha_level(b),
            forall|l: int| 0 <= l < lane ==> #[trigger] levels@[l] == alpha_level(coverage@[offset + l] as int),
            forall|l: int| 0 <= l < lane ==> #[trigger] levels@[l] <= LINEAR_SCALE,
        decreases 8 - lane,
    {
        let byte = coverage[offset + lane];
        proof { crate::tables::lemma_alpha_round_trip(byte); }
        levels[lane] = alpha_table[byte as usize];
        lane = lane + 1;
    }
    levels
}

/// `value * factor` lane by lane, with one value for every lane.
fn scale_lanes(value: u32, factor: [u32; 8]) -> (scaled: [u32; 8])
    requires
        value <= LINEAR_SCALE,
        forall|l: int| 0 <= l < 8 ==> #[trigger] factor@[l] <= LINEAR_SCALE,
    ensures
        forall|l: int| 0 <= l < 8 ==> #[trigger] scaled@[l] == scale_spec(value as int, factor@[l] as int),
        forall|l: int| 0 <= l < 8 ==> #[trigger] scaled@[l] <= LINEAR_SCALE,
{
    let mut scaled: [u32; 8] = [0u32; 8];
    let mut lane: usize = 0;
    while lane < LANES
        invariant
            lane <= 8,
            value <= LINEAR_SCALE,
            forall|l: int| 0 <= l < 8 ==> #[trigger] factor@[l] <= LINEAR_SCALE,
            forall|l: int| 0 <= l < lane ==> #[trigger] scaled@[l] == scale_spec(value as int, factor@[l] as int),
            forall|l: int| 0 <= l < lane ==> #[trigger] scaled@[l] <= LINEAR_SCALE,
        decreases 8 - lane,
    {
        scaled[lane] = scale(value, factor[lane]);
        lane = lane + 1;
    }
    scaled
}

/// `LINEAR_SCALE - alpha`, lane by lane.
fn inverse_lanes(alpha: [u32; 8]) -> (inverse: [u32; 8])
    requires
        forall|l: int| 0 <= l < 8 ==> #[trigger] alpha@[l] <= LINEAR_SCALE,
    ensures
        forall|l: int| 0 <= l < 8 ==> #[trigger] inverse@[l] == 4096 - alpha@[l],
{
    let mut inverse: [u32; 8] = [0u32; 8];
    let mut lane: usize = 0;
    while lane < LANES
        invariant
            lane <= 8,
            forall|l: int| 0 <= l < 8 ==> #[trigger] alpha@[l] <= LINEAR_SCALE,
            forall|l: int| 0 <= l < lane ==> #[trigger] inverse@[l] == 4096 - alpha@[l],
        decreases 8 - lane,
    {
        inverse[lane] = LINEAR_SCALE - alpha[lane];
        lane = lane + 1;
    }
    inverse
}

/// [`blend_coverage`], eight pixels per step — every lane of a step is
/// blended, whatever its coverage — and the remainder one at a time, where a
/// pixel without coverage is skipped.
fn blend_coverage_lanes(span: &mut [u8], paint: &SolidPaint, tables: &FineTables, coverage: &[u8])
    requires
        old(span)@.len() == 4 * coverage@.len(),
    ensures
        final(span)@ == coverage_result(old(span)@, *paint, *tables, coverage@, true),
{
    let ghost goal = blend_span(
        old(span)@,
        *paint,
        *tables,
        |j: int| alpha_level(coverage@[j] as int),
        |j: int| coverage_touches(coverage@, true, j),
    );
    let (_, alpha_table, _) = tables.raw();
    let levels: [u32; 4] = [paint.level_at(0), paint.level_at(1), paint.level_at(2), paint.level_at(3)];
    let len = span.len();
    let pixels = coverage.len();
    let vectors = pixels / LANES;
    let mut vector: usize = 0;
    while vector < vectors
        invariant
            len == span@.len(),
            span@.len() == old(span)@.len(),
            len == 4 * pixels,
            pixels == coverage@.len(),
            vectors == pixels / 8,
            vector <= vectors,
            alpha_table@.len() == 256,
            forall|b: int| 0 <= b < 256 ==> #[trigger] alpha_table@[b] == alpha_level(b),
            forall|k: int| 0 <= k < 4 ==> #[trigger] levels@[k] == paint.level(k),
            forall|k: int| 0 <= k < 4 ==> #[trigger] levels@[k] <= LINEAR_SCALE,
            goal == blend_span(
                old(span)@,
                *paint,
                *tables,
                |j: int| alpha_level(coverage@[j] as int),
                |j: int| coverage_touches(coverage@, true, j),
            ),
            forall|i: int| 0 <= i < len ==> #[trigger] span@[i] == (
                if i < 32 * vector { goal[i] } else { old(span)@[i] }),
        decreases vectors - vector,
    {
        let offset = vector * LANES;
        let cov = gather_coverage(alpha_table, coverage, offset);
        let source_alpha = scale_lanes(levels[3], cov);
        let inverse = inverse_lanes(source_alpha);
        let sources: [[u32; 8]; 4] = [
            scale_lanes(levels[0], cov),
            scale_lanes(levels[1], cov),
            scale_lanes(levels[2], cov),
            source_alpha,
        ];
        let at = offset * 4;
        blend_chunk(span, at, tables, sources, inverse);
        proof {
            assert forall|i: int| at <= i < at + 32 implies #[trigger] span@[i] == goal[i] by {
                let j = (i - at) / 4;
                lemma_pixel_of(i - at, j);
                lemma_pixel_of(i, offset + j);
                assert(offset + j < 8 * (pixels as int / 8)) by (nonlinear_arith)
                    requires offset == vector * 8, 0 <= j < 8, vector < vectors, vectors == pixels as int / 8;
                lemma_blend_is_lane(*paint, *tables, cov@[j] as int, (i - at) % 4, old(span)@[i]);
            }
        }
        vector = vector + 1;
    }
    let mut pixel: usize = vectors * LANES;
    while pixel < pixels
        invariant
            len == span@.len(),
            span@.len() == old(span)@.len(),
            len == 4 * pixels,
            pixels == coverage@.len(),
            vectors == pixels / 8,
            vectors * 8 <= pixel <= pixels,
            goal == blend_span(
                old(span)@,
                *paint,
                *tables,
                |j: int| alpha_level(coverage@[j] as int),
                |j: int| coverage_touches(coverage@, true, j),
            ),
            forall|i: int| 0 <= i < len ==> #[trigger] span@[i] == (
                if i < 4 * pixel { goal[i] } else { old(span)@[i] }),
        decreases pixels - pixel,
    {
        let alpha = coverage[pixel];
        if alpha != 0 {
            let cov = tables.coverage(alpha);
            proof { crate::tables::lemma_alpha_round_trip(alpha); }
            blend_pixel(span, 4 * pixel, paint, tables, cov);
        }
        proof {
            assert forall|i: int| 4 * pixel <= i < 4 * pixel + 4 implies #[trigger] span@[i] == goal[i] by {
                lemma_pixel_of(i, pixel as int);
            }
        }
        pixel = pixel + 1;
    }
    assert(span@ =~= goal);
}

} // verus!
