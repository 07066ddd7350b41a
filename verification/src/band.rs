//! Stage 6 over a whole draw: each band of scanlines is composited by the
//! strips that belong to it.
//!
//! A band is a run of whole scanlines, and it is written only by the strips
//! of its own band index. That is what lets a caller hand bands to different
//! workers: no two bands touch the same byte, so the output cannot depend on
//! the schedule.
use vstd::prelude::*;

use crate::fine::{
    Simd, SolidPaint, blend_byte, blend_coverage, blend_uniform, coverage_result, fill, lemma_kernels_agree,
    lemma_scale_by_full, scale_spec, uniform_result,
};
use crate::pixels::{TargetMut, TargetView, with_pattern};
use crate::strips::{Strip, StripKind, Strips, StripsView, strip_alphas_of};
use crate::tables::{FineTables, alpha_level};

verus! {

/// What stage 6 did.
#[derive(Debug, Clone, Copy, PartialEq, Eq, Structural)]
pub struct FineStats {
    /// Pixels written by the full-coverage store path.
    pub pixels_stored: usize,
    /// Pixels written by the blend path.
    pub pixels_blended: usize,
    /// Which implementation ran.
    pub simd: Simd,
}

impl Default for FineStats {
    fn default() -> (stats: FineStats)
        ensures
            stats.pixels_stored == 0,
            stats.pixels_blended == 0,
            stats.simd == Simd::Scalar,
    {
        FineStats { pixels_stored: 0, pixels_blended: 0, simd: Simd::Scalar }
    }
}

/// How many pixels of `strip` lie on a target `width` pixels wide.
pub open spec fn span_width(strip: Strip, width: u32) -> int {
    let room = if strip.x >= width { 0 } else { width - strip.x };
    if (strip.width as int) < room { strip.width as int } else { room }
}

/// The coverage byte of row `row` of a constant-coverage strip, zero when
/// the strip has no byte for it.
pub open spec fn row_coverage(alphas: Seq<u8>, row: int) -> u8 {
    if row < alphas.len() { alphas[row] } else { 0 }
}

/// A strip's row `row` composited onto `span`, the bytes of that row's
/// pixels: nothing where coverage is zero, a plain store where an opaque
/// paint covers fully, a blend otherwise.
pub open spec fn strip_row(
    span: Seq<u8>,
    strip: Strip,
    row: int,
    alphas: Seq<u8>,
    pixels: int,
    paint: SolidPaint,
    tables: FineTables,
    simd: Simd,
) -> Seq<u8> {
    match strip.kind {
        StripKind::Uniform { .. } => {
            let c = row_coverage(alphas, row);
            if c == 0 {
                span
            } else if c == 255 && paint.opaque() {
                with_pattern(span, 0, pixels, paint.encoded())
            } else {
                uniform_result(span, paint, tables, c)
            }
        },
        StripKind::Alpha { .. } => {
            let row_start = row * strip.width as int;
            if row_start + pixels > alphas.len() {
                span
            } else {
                coverage_result(span, paint, tables, alphas.subrange(row_start, row_start + pixels), simd == Simd::Avx2)
            }
        },
    }
}

/// The band's bytes after row `row` of `strip` is composited: the row's span
/// starts `row` strides in and `strip.x` pixels across. A span that runs past
/// the band's bytes is skipped.
pub open spec fn apply_row(
    bytes: Seq<u8>,
    stride: int,
    width: u32,
    strip: Strip,
    row: int,
    alphas: Seq<u8>,
    paint: SolidPaint,
    tables: FineTables,
    simd: Simd,
) -> Seq<u8> {
    let pixels = span_width(strip, width);
    let start = row * stride + strip.x as int * 4;
    let end = start + pixels * 4;
    if end > bytes.len() {
        bytes
    } else {
        bytes.subrange(0, start)
            + strip_row(bytes.subrange(start, end), strip, row, alphas, pixels, paint, tables, simd)
            + bytes.subrange(end, bytes.len() as int)
    }
}

/// The band's bytes after the first `n` rows of `strip` are composited, in
/// order.
pub open spec fn apply_rows(
    bytes: Seq<u8>,
    stride: int,
    width: u32,
    strip: Strip,
    n: nat,
    alphas: Seq<u8>,
    paint: SolidPaint,
    tables: FineTables,
    simd: Simd,
) -> Seq<u8>
    decreases n,
{
    if n == 0 {
        bytes
    } else {
        apply_row(
            apply_rows(bytes, stride, width, strip, (n - 1) as nat, alphas, paint, tables, simd),
            stride,
            width,
            strip,
            n - 1,
            alphas,
            paint,
            tables,
            simd,
        )
    }
}

/// Whole rows of `stride` bytes in `len` bytes (a zero stride counts as one).
pub open spec fn available_rows(len: int, stride: int) -> int {
    len / (if stride == 0 { 1 } else { stride })
}

/// The rows of `strip` that are drawn into a band of `len` bytes.
pub open spec fn drawn_rows(strip: Strip, len: int, stride: int) -> nat {
    let available = available_rows(len, stride);
    (if (strip.rows as int) < available { strip.rows as int } else { available }) as nat
}

/// The band's bytes after the first `k` of `strips` are composited, in
/// order, each on as many of its rows as the band holds.
pub open spec fn apply_strips(
    bytes: Seq<u8>,
    stride: int,
    width: u32,
    strips: Seq<Strip>,
    alphas: Seq<u8>,
    k: nat,
    paint: SolidPaint,
    tables: FineTables,
    simd: Simd,
) -> Seq<u8>
    decreases k,
{
    if k == 0 {
        bytes
    } else {
        let before = apply_strips(bytes, stride, width, strips, alphas, (k - 1) as nat, paint, tables, simd);
        let strip = strips[k - 1];
        if span_width(strip, width) == 0 {
            before
        } else {
            apply_rows(
                before,
                stride,
                width,
                strip,
                drawn_rows(strip, bytes.len() as int, stride),
                strip_alphas_of(alphas, strip),
                paint,
                tables,
                simd,
            )
        }
    }
}

/// A band's rows after every strip of band `band` is composited onto them.
pub open spec fn band_result(
    rows: Seq<u8>,
    stride: int,
    width: u32,
    strips: StripsView,
    band: u32,
    paint: SolidPaint,
    tables: FineTables,
    simd: Simd,
) -> Seq<u8> {
    let in_band = strips.strips.filter(|s: Strip| s.band == band);
    apply_strips(rows, stride, width, in_band, strips.alphas, in_band.len(), paint, tables, simd)
}

/// The bytes `start..end` of `data`, lent out mutably; whatever is written to
/// them lands in `data`.
fn subslice_mut(data: &mut [u8], start: usize, end: usize) -> (span: &mut [u8])
    requires
        start <= end <= old(data)@.len(),
    ensures
        span@ == old(data)@.subrange(start as int, end as int),
        final(data)@ == old(data)@.subrange(0, start as int) + final(span)@
            + old(data)@.subrange(end as int, old(data)@.len() as int),
{
    let total = data.len();
    let (prefix, rest) = data.split_at_mut(start);
    let (span, suffix) = rest.split_at_mut(end - start);
    assert(has_resolved(prefix));
    assert(has_resolved(suffix));
    assert(prefix@ =~= old(data)@.subrange(0, start as int));
    assert(suffix@ =~= old(data)@.subrange(end as int, total as int));
    assert(span@ =~= old(data)@.subrange(start as int, end as int));
    span
}

/// Composites row `row` of `strip` into `rows`.
fn render_row(
    rows: &mut [u8],
    stride: usize,
    width: u32,
    strip: &Strip,
    row: usize,
    alphas: &[u8],
    paint: &SolidPaint,
    tables: &FineTables,
    simd: Simd,
)
    ensures
        final(rows)@ == apply_row(old(rows)@, stride as int, width, *strip, row as int, alphas@, *paint, *tables, simd),
{
    let len = rows.len();
    let alphas_len = alphas.len();
    let room = width.saturating_sub(strip.x);
    let pixels: u32 = if strip.width < room { strip.width } else { room };
    let offset = match row.checked_mul(stride) {
        Some(offset) => offset,
        None => return,
    };
    let across = match (strip.x as usize).checked_mul(4) {
        Some(across) => across,
        None => return,
    };
    let start = match offset.checked_add(across) {
        Some(start) => start,
        None => return,
    };
    let extent = match (pixels as usize).checked_mul(4) {
        Some(extent) => extent,
        None => return,
    };
    let end = match start.checked_add(extent) {
        Some(end) => end,
        None => return,
    };
    if end > len {
        return;
    }
    let ghost before = rows@;
    let span = subslice_mut(rows, start, end);
    assert(span@.len() == 4 * pixels);
    match strip.kind {
        StripKind::Uniform { .. } => {
            let coverage: u8 = if row < alphas.len() { alphas[row] } else { 0 };
            if coverage == 0 {
                return;
            }
            if coverage == 255 && paint.is_opaque() {
                fill(span, paint.bytes(), simd);
            } else {
                blend_uniform(span, paint, tables, coverage, simd);
            }
        },
        StripKind::Alpha { .. } => {
            let row_start = match row.checked_mul(strip.width as usize) {
                Some(row_start) => row_start,
                None => {
                    assert(row as int * strip.width as int + pixels as int > alphas@.len());
                    return;
                },
            };
            if row_start > alphas.len() || pixels as usize > alphas.len() - row_start {
                return;
            }
            let coverage = &alphas[row_start..row_start + pixels as usize];
            blend_coverage(span, paint, tables, coverage, simd);
        },
    }
}

/// Composites every strip of band `band` into that band's rows: `rows` is
/// the band's run of scanlines, `stride` bytes apart, on a target `width`
/// pixels wide.
///
/// A band is written only by its own strips, so bands can be rendered by
/// different workers, in any order, with the same result.
pub fn render_band(
    rows: &mut [u8],
    stride: usize,
    width: u32,
    strips: &Strips<'_>,
    paint: &SolidPaint,
    tables: &FineTables,
    simd: Simd,
    band: u32,
)
    ensures
        final(rows)@ == band_result(old(rows)@, stride as int, width, strips@, band, *paint, *tables, simd),
{
    let len = rows.len();
    let available: usize = len / (if stride == 0 { 1 } else { stride });
    let band_strips = strips.band_strips(band);
    let ghost in_band = strips@.strips.filter(|s: Strip| s.band == band);
    let mut k: usize = 0;
    while k < band_strips.len()
        invariant
            band_strips@ == in_band,
            len == rows@.len(),
            len == old(rows)@.len(),
            available == available_rows(len as int, stride as int),
            k <= band_strips@.len(),
            rows@ == apply_strips(old(rows)@, stride as int, width, in_band, strips@.alphas, k as nat, *paint, *tables, simd),
        decreases band_strips@.len() - k,
    {
        let strip = band_strips[k];
        let alphas = strips.strip_alphas(&strip);
        let room = width.saturating_sub(strip.x);
        let pixels: u32 = if strip.width < room { strip.width } else { room };
        if pixels != 0 {
            let count: usize = if (strip.rows as usize) < available { strip.rows as usize } else { available };
            let ghost before = rows@;
            let mut row: usize = 0;
            while row < count
                invariant
                    len == rows@.len(),
                    row <= count,
                    rows@ == apply_rows(before, stride as int, width, strip, row as nat, alphas@, *paint, *tables, simd),
                decreases count - row,
            {
                render_row(rows, stride, width, &strip, row, alphas, paint, tables, simd);
                proof { lemma_apply_row_len(rows@, stride as int, width, strip, row as int, alphas@, *paint, *tables, simd); }
                row = row + 1;
            }
        }
        k = k + 1;
    }
}

proof fn lemma_apply_row_len(
    bytes: Seq<u8>,
    stride: int,
    width: u32,
    strip: Strip,
    row: int,
    alphas: Seq<u8>,
    paint: SolidPaint,
    tables: FineTables,
    simd: Simd,
)
    requires
        0 <= row,
        0 <= stride,
    ensures
        apply_row(bytes, stride, width, strip, row, alphas, paint, tables, simd).len() == bytes.len(),
{
    let pixels = span_width(strip, width);
    let start = row * stride + strip.x as int * 4;
    let end = start + pixels * 4;
    if end <= bytes.len() {
        let span = bytes.subrange(start, end);
        let result = strip_row(span, strip, row, alphas, pixels, paint, tables, simd);
        assert(0 <= row * stride) by (nonlinear_arith) requires 0 <= row, 0 <= stride;
        assert(result.len() == span.len());
    }
}

proof fn lemma_apply_rows_len(
    bytes: Seq<u8>,
    stride: int,
    width: u32,
    strip: Strip,
    n: nat,
    alphas: Seq<u8>,
    paint: SolidPaint,
    tables: FineTables,
    simd: Simd,
)
    requires
        0 <= stride,
    ensures
        apply_rows(bytes, stride, width, strip, n, alphas, paint, tables, simd).len() == bytes.len(),
    decreases n,
{
    if n > 0 {
        lemma_apply_rows_len(bytes, stride, width, strip, (n - 1) as nat, alphas, paint, tables, simd);
        lemma_apply_row_len(
            apply_rows(bytes, stride, width, strip, (n - 1) as nat, alphas, paint, tables, simd),
            stride, width, strip, n - 1, alphas, paint, tables, simd);
    }
}

proof fn lemma_apply_strips_len(
    bytes: Seq<u8>,
    stride: int,
    width: u32,
    strips: Seq<Strip>,
    alphas: Seq<u8>,
    k: nat,
    paint: SolidPaint,
    tables: FineTables,
    simd: Simd,
)
    requires
        0 <= stride,
    ensures
        apply_strips(bytes, stride, width, strips, alphas, k, paint, tables, simd).len() == bytes.len(),
    decreases k,
{
    if k > 0 {
        lemma_apply_strips_len(bytes, stride, width, strips, alphas, (k - 1) as nat, paint, tables, simd);
        let before = apply_strips(bytes, stride, width, strips, alphas, (k - 1) as nat, paint, tables, simd);
        let strip = strips[k - 1];
        lemma_apply_rows_len(before, stride, width, strip, drawn_rows(strip, bytes.len() as int, stride),
            strip_alphas_of(alphas, strip), paint, tables, simd);
    }
}

/// Rendering a band leaves its length alone.
pub proof fn lemma_band_result_len(
    rows: Seq<u8>,
    stride: int,
    width: u32,
    strips: StripsView,
    band: u32,
    paint: SolidPaint,
    tables: FineTables,
    simd: Simd,
)
    requires
        0 <= stride,
    ensures
        band_result(rows, stride, width, strips, band, paint, tables, simd).len() == rows.len(),
{
    let in_band = strips.strips.filter(|s: Strip| s.band == band);
    lemma_apply_strips_len(rows, stride, width, in_band, strips.alphas, in_band.len(), paint, tables, simd);
}

proof fn lemma_apply_row_kernels_agree(
    bytes: Seq<u8>,
    stride: int,
    width: u32,
    strip: Strip,
    row: int,
    alphas: Seq<u8>,
    paint: SolidPaint,
    tables: FineTables,
)
    requires
        tables.round_trips(),
        0 <= row,
        0 <= stride,
    ensures
        apply_row(bytes, stride, width, strip, row, alphas, paint, tables, Simd::Avx2)
            == apply_row(bytes, stride, width, strip, row, alphas, paint, tables, Simd::Scalar),
{
    assert(0 <= row * stride) by (nonlinear_arith) requires 0 <= row, 0 <= stride;
    assert(0 <= row * strip.width as int) by (nonlinear_arith) requires 0 <= row;
    let pixels = span_width(strip, width);
    let start = row * stride + strip.x as int * 4;
    let end = start + pixels * 4;
    if end <= bytes.len() {
        let span = bytes.subrange(start, end);
        if let StripKind::Alpha { .. } = strip.kind {
            let row_start = row * strip.width as int;
            if row_start + pixels <= alphas.len() {
                lemma_kernels_agree(span, paint, tables, alphas.subrange(row_start, row_start + pixels));
            }
        }
    }
}

proof fn lemma_apply_rows_kernels_agree(
    bytes: Seq<u8>,
    stride: int,
    width: u32,
    strip: Strip,
    n: nat,
    alphas: Seq<u8>,
    paint: SolidPaint,
    tables: FineTables,
)
    requires
        tables.round_trips(),
        0 <= stride,
    ensures
        apply_rows(bytes, stride, width, strip, n, alphas, paint, tables, Simd::Avx2)
            == apply_rows(bytes, stride, width, strip, n, alphas, paint, tables, Simd::Scalar),
    decreases n,
{
    if n > 0 {
        lemma_apply_rows_kernels_agree(bytes, stride, width, strip, (n - 1) as nat, alphas, paint, tables);
        let before = apply_rows(bytes, stride, width, strip, (n - 1) as nat, alphas, paint, tables, Simd::Scalar);
        lemma_apply_row_kernels_agree(before, stride, width, strip, n - 1, alphas, paint, tables);
    }
}

proof fn lemma_apply_strips_kernels_agree(
    bytes: Seq<u8>,
    stride: int,
    width: u32,
    strips: Seq<Strip>,
    alphas: Seq<u8>,
    k: nat,
    paint: SolidPaint,
    tables: FineTables,
)
    requires
        tables.round_trips(),
        0 <= stride,
    ensures
        apply_strips(bytes, stride, width, strips, alphas, k, paint, tables, Simd::Avx2)
            == apply_strips(bytes, stride, width, strips, alphas, k, paint, tables, Simd::Scalar),
    decreases k,
{
    if k > 0 {
        lemma_apply_strips_kernels_agree(bytes, stride, width, strips, alphas, (k - 1) as nat, paint, tables);
        let before = apply_strips(bytes, stride, width, strips, alphas, (k - 1) as nat, paint, tables, Simd::Scalar);
        let strip = strips[k - 1];
        lemma_apply_rows_kernels_agree(before, stride, width, strip, drawn_rows(strip, bytes.len() as int, stride),
            strip_alphas_of(alphas, strip), paint, tables);
    }
}

/// A band renders to the same bytes on either kernel, on tables under which
/// every sRGB byte survives a decode and re-encode.
pub proof fn lemma_band_kernels_agree(
    rows: Seq<u8>,
    stride: int,
    width: u32,
    strips: StripsView,
    band: u32,
    paint: SolidPaint,
    tables: FineTables,
)
    requires
        tables.round_trips(),
        0 <= stride,
    ensures
        band_result(rows, stride, width, strips, band, paint, tables, Simd::Avx2)
            == band_result(rows, stride, width, strips, band, paint, tables, Simd::Scalar),
{
    let in_band = strips.strips.filter(|s: Strip| s.band == band);
    lemma_apply_strips_kernels_agree(rows, stride, width, in_band, strips.alphas, in_band.len(), paint, tables);
}

proof fn lemma_apply_row_keeps_padding(
    bytes: Seq<u8>,
    stride: int,
    width: u32,
    strip: Strip,
    row: int,
    alphas: Seq<u8>,
    paint: SolidPaint,
    tables: FineTables,
    simd: Simd,
    i: int,
)
    requires
        0 <= row,
        4 * width <= stride,
        0 <= i < bytes.len(),
        i % stride >= 4 * width,
    ensures
        apply_row(bytes, stride, width, strip, row, alphas, paint, tables, simd)[i] == bytes[i],
{
    let pixels = span_width(strip, width);
    let start = row * stride + strip.x as int * 4;
    let end = start + pixels * 4;
    lemma_apply_row_len(bytes, stride, width, strip, row, alphas, paint, tables, simd);
    assert(0 <= row * stride) by (nonlinear_arith) requires 0 <= row, 0 <= stride;
    if end <= bytes.len() && pixels > 0 {
        if start <= i < end {
            assert(row * stride <= i < row * stride + stride);
            vstd::arithmetic::div_mod::lemma_fundamental_div_mod_converse(i, stride, row, i - row * stride);
            assert(false);
        }
        let span = bytes.subrange(start, end);
        assert(strip_row(span, strip, row, alphas, pixels, paint, tables, simd).len() == span.len());
    }
}

proof fn lemma_apply_rows_keeps_padding(
    bytes: Seq<u8>,
    stride: int,
    width: u32,
    strip: Strip,
    n: nat,
    alphas: Seq<u8>,
    paint: SolidPaint,
    tables: FineTables,
    simd: Simd,
    i: int,
)
    requires
        4 * width <= stride,
        0 <= i < bytes.len(),
        i % stride >= 4 * width,
    ensures
        apply_rows(bytes, stride, width, strip, n, alphas, paint, tables, simd)[i] == bytes[i],
    decreases n,
{
    if n > 0 {
        lemma_apply_rows_keeps_padding(bytes, stride, width, strip, (n - 1) as nat, alphas, paint, tables, simd, i);
        let before = apply_rows(bytes, stride, width, strip, (n - 1) as nat, alphas, paint, tables, simd);
        lemma_apply_rows_len(bytes, stride, width, strip, (n - 1) as nat, alphas, paint, tables, simd);
        lemma_apply_row_keeps_padding(before, stride, width, strip, n - 1, alphas, paint, tables, simd, i);
    }
}

proof fn lemma_apply_strips_keeps_padding(
    bytes: Seq<u8>,
    stride: int,
    width: u32,
    strips: Seq<Strip>,
    alphas: Seq<u8>,
    k: nat,
    paint: SolidPaint,
    tables: FineTables,
    simd: Simd,
    i: int,
)
    requires
        4 * width <= stride,
        0 <= i < bytes.len(),
        i % stride >= 4 * width,
    ensures
        apply_strips(bytes, stride, width, strips, alphas, k, paint, tables, simd)[i] == bytes[i],
    decreases k,
{
    if k > 0 {
        lemma_apply_strips_keeps_padding(bytes, stride, width, strips, alphas, (k - 1) as nat, paint, tables, simd, i);
        lemma_apply_strips_len(bytes, stride, width, strips, alphas, (k - 1) as nat, paint, tables, simd);
        let before = apply_strips(bytes, stride, width, strips, alphas, (k - 1) as nat, paint, tables, simd);
        let strip = strips[k - 1];
        lemma_apply_rows_keeps_padding(before, stride, width, strip, drawn_rows(strip, bytes.len() as int, stride),
            strip_alphas_of(alphas, strip), paint, tables, simd, i);
    }
}

/// A band never writes the padding of its scanlines: a byte whose offset
/// within its scanline lies past the target's `width` pixels is left as it
/// was.
pub proof fn lemma_band_keeps_padding(
    rows: Seq<u8>,
    stride: int,
    width: u32,
    strips: StripsView,
    band: u32,
    paint: SolidPaint,
    tables: FineTables,
    simd: Simd,
    i: int,
)
    requires
        4 * width <= stride,
        0 <= i < rows.len(),
        i % stride >= 4 * width,
    ensures
        band_result(rows, stride, width, strips, band, paint, tables, simd)[i] == rows[i],
{
    let in_band = strips.strips.filter(|s: Strip| s.band == band);
    lemma_apply_strips_keeps_padding(rows, stride, width, in_band, strips.alphas, in_band.len(), paint, tables, simd, i);
}

/// The pixels one row of a strip stores (first) and blends (second): a
/// constant-coverage row stores when an opaque paint covers it fully and
/// blends otherwise, a per-pixel row always blends, and a row without
/// coverage does neither.
pub open spec fn row_counts(strip: Strip, alphas: Seq<u8>, row: int, pixels: int, opaque: bool) -> (int, int) {
    match strip.kind {
        StripKind::Uniform { .. } => {
            let c = row_coverage(alphas, row);
            if c == 0 {
                (0, 0)
            } else if c == 255 && opaque {
                (pixels, 0)
            } else {
                (0, pixels)
            }
        },
        StripKind::Alpha { .. } => (0, pixels),
    }
}

/// The counts of the first `n` rows of a strip.
pub open spec fn rows_counts(strip: Strip, alphas: Seq<u8>, n: nat, pixels: int, opaque: bool) -> (int, int)
    decreases n,
{
    if n == 0 {
        (0, 0)
    } else {
        let (stored, blended) = rows_counts(strip, alphas, (n - 1) as nat, pixels, opaque);
        let (s, b) = row_counts(strip, alphas, n - 1, pixels, opaque);
        (stored + s, blended + b)
    }
}

/// The counts of the first `k` strips, every row of each.
pub open spec fn strips_counts(strips: Seq<Strip>, alphas: Seq<u8>, width: u32, k: nat, opaque: bool) -> (int, int)
    decreases k,
{
    if k == 0 {
        (0, 0)
    } else {
        let (stored, blended) = strips_counts(strips, alphas, width, (k - 1) as nat, opaque);
        let strip = strips[k - 1];
        let pixels = span_width(strip, width);
        if pixels == 0 {
            (stored, blended)
        } else {
            let (s, b) = rows_counts(strip, strip_alphas_of(alphas, strip), strip.rows as nat, pixels, opaque);
            (stored + s, blended + b)
        }
    }
}

/// The counts of a whole draw.
pub open spec fn draw_counts(strips: StripsView, width: u32, paint: SolidPaint) -> (int, int) {
    strips_counts(strips.strips, strips.alphas, width, strips.strips.len(), paint.opaque())
}

proof fn lemma_rows_counts_grow(strip: Strip, alphas: Seq<u8>, n: nat, m: nat, pixels: int, opaque: bool)
    requires
        n <= m,
        pixels >= 0,
    ensures
        0 <= rows_counts(strip, alphas, n, pixels, opaque).0 <= rows_counts(strip, alphas, m, pixels, opaque).0,
        0 <= rows_counts(strip, alphas, n, pixels, opaque).1 <= rows_counts(strip, alphas, m, pixels, opaque).1,
    decreases m,
{
    if m > 0 {
        if n < m {
            lemma_rows_counts_grow(strip, alphas, n, (m - 1) as nat, pixels, opaque);
        } else {
            lemma_rows_counts_grow(strip, alphas, (n - 1) as nat, (m - 1) as nat, pixels, opaque);
        }
    }
}

proof fn lemma_strips_counts_grow(strips: Seq<Strip>, alphas: Seq<u8>, width: u32, k: nat, n: nat, opaque: bool)
    requires
        k <= n <= strips.len(),
    ensures
        0 <= strips_counts(strips, alphas, width, k, opaque).0 <= strips_counts(strips, alphas, width, n, opaque).0,
        0 <= strips_counts(strips, alphas, width, k, opaque).1 <= strips_counts(strips, alphas, width, n, opaque).1,
    decreases n,
{
    if n > 0 {
        let strip = strips[n - 1];
        lemma_rows_counts_grow(strip, strip_alphas_of(alphas, strip), 0, strip.rows as nat, span_width(strip, width), opaque);
        if k < n {
            lemma_strips_counts_grow(strips, alphas, width, k, (n - 1) as nat, opaque);
        } else {
            lemma_strips_counts_grow(strips, alphas, width, (n - 1) as nat, (n - 1) as nat, opaque);
        }
    }
}

/// Counts what a render will do, from the strips alone: the pixels it will
/// store and the pixels it will blend. `None` when a count does not fit in a
/// `usize`.
///
/// Serial and exact, so workers need no shared counters: the statistics are a
/// property of the strip list, not of who rendered it.
pub fn count(strips: &Strips<'_>, width: u32, paint: &SolidPaint, simd: Simd) -> (stats: Option<FineStats>)
    ensures
        ({
            let (stored, blended) = draw_counts(strips@, width, *paint);
            match stats {
                Some(s) => s.pixels_stored == stored && s.pixels_blended == blended && s.simd == simd,
                None => stored > usize::MAX || blended > usize::MAX,
            }
        }),
{
    let all = strips.strips();
    let opaque = paint.is_opaque();
    let ghost total = draw_counts(strips@, width, *paint);
    let mut stored: usize = 0;
    let mut blended: usize = 0;
    let mut k: usize = 0;
    while k < all.len()
        invariant
            all@ == strips@.strips,
            opaque == paint.opaque(),
            total == draw_counts(strips@, width, *paint),
            k <= all@.len(),
            (stored as int, blended as int) == strips_counts(all@, strips@.alphas, width, k as nat, opaque),
        decreases all@.len() - k,
    {
        let strip = all[k];
        let room = width.saturating_sub(strip.x);
        let pixels: u32 = if strip.width < room { strip.width } else { room };
        proof { lemma_strips_counts_grow(all@, strips@.alphas, width, (k + 1) as nat, all@.len(), opaque); }
        if pixels != 0 {
            let alphas = strips.strip_alphas(&strip);
            let ghost base = (stored as int, blended as int);
            let mut row: usize = 0;
            while row < strip.rows as usize
                invariant
                    row <= strip.rows,
                    alphas@ == strip_alphas_of(strips@.alphas, strip),
                    opaque == paint.opaque(),
                    pixels == span_width(strip, width),
                    (stored as int, blended as int) == ({
                        let (s, b) = rows_counts(strip, alphas@, row as nat, pixels as int, opaque);
                        (base.0 + s, base.1 + b)
                    }),
                    base.0 + rows_counts(strip, alphas@, strip.rows as nat, pixels as int, opaque).0 <= total.0
                        || total.0 > usize::MAX,
                    base.1 + rows_counts(strip, alphas@, strip.rows as nat, pixels as int, opaque).1 <= total.1
                        || total.1 > usize::MAX,
                    total == draw_counts(strips@, width, *paint),
                decreases strip.rows - row,
            {
                proof { lemma_rows_counts_grow(strip, alphas@, (row + 1) as nat, strip.rows as nat, pixels as int, opaque); }
                match strip.kind {
                    StripKind::Uniform { .. } => {
                        let coverage: u8 = if row < alphas.len() { alphas[row] } else { 0 };
                        if coverage == 0 {
                        } else if coverage == 255 && opaque {
                            match stored.checked_add(pixels as usize) {
                                Some(sum) => stored = sum,
                                None => return None,
                            }
                        } else {
                            match blended.checked_add(pixels as usize) {
                                Some(sum) => blended = sum,
                                None => return None,
                            }
                        }
                    },
                    StripKind::Alpha { .. } => {
                        match blended.checked_add(pixels as usize) {
                            Some(sum) => blended = sum,
                            None => return None,
                        }
                    },
                }
                row = row + 1;
            }
        }
        k = k + 1;
    }
    Some(FineStats { pixels_stored: stored, pixels_blended: blended, simd })
}

/// The bytes of a target after a draw: the bytes `start..end` that the
/// strips' bands reach are cut into chunks of `chunk` bytes — one band of
/// `chunk / stride` scanlines each — and chunk `b` becomes band `b`'s result.
/// Every other byte is left as it was.
pub open spec fn rendered(
    bytes: Seq<u8>,
    strips: StripsView,
    stride: int,
    width: u32,
    chunk: int,
    paint: SolidPaint,
    tables: FineTables,
    simd: Simd,
) -> Seq<u8> {
    if chunk == 0 || strips.strips.len() == 0 {
        bytes
    } else {
        let start = strips.strips[0].band as int * chunk;
        let reach = (strips.strips.last().band as int + 1) * chunk;
        let end = if reach < bytes.len() { reach } else { bytes.len() as int };
        Seq::new(bytes.len(), |i: int|
            if start <= i < end {
                let band = i / chunk;
                let lo = band * chunk;
                let hi = if lo + chunk < end { lo + chunk } else { end };
                band_result(bytes.subrange(lo, hi), stride, width, strips, band as u32, paint, tables, simd)[i - lo]
            } else {
                bytes[i]
            })
    }
}

/// A draw renders to the same target bytes on either kernel, on tables under
/// which every sRGB byte survives a decode and re-encode.
pub proof fn lemma_render_kernels_agree(
    bytes: Seq<u8>,
    strips: StripsView,
    stride: int,
    width: u32,
    chunk: int,
    paint: SolidPaint,
    tables: FineTables,
)
    requires
        tables.round_trips(),
        0 <= stride,
    ensures
        rendered(bytes, strips, stride, width, chunk, paint, tables, Simd::Avx2)
            == rendered(bytes, strips, stride, width, chunk, paint, tables, Simd::Scalar),
{
    let lanes = rendered(bytes, strips, stride, width, chunk, paint, tables, Simd::Avx2);
    let scalar = rendered(bytes, strips, stride, width, chunk, paint, tables, Simd::Scalar);
    if chunk != 0 && strips.strips.len() != 0 {
        assert forall|i: int| 0 <= i < bytes.len() implies lanes[i] == scalar[i] by {
            let band = i / chunk;
            let lo = band * chunk;
            let start = strips.strips[0].band as int * chunk;
            let reach = (strips.strips.last().band as int + 1) * chunk;
            let end = if reach < bytes.len() { reach } else { bytes.len() as int };
            let hi = if lo + chunk < end { lo + chunk } else { end };
            if start <= i < end {
                lemma_band_kernels_agree(bytes.subrange(lo, hi), stride, width, strips, band as u32, paint, tables);
            }
        }
    }
    assert(lanes =~= scalar);
}

/// A band's bytes after a draw depend only on that band's bytes before it:
/// two targets that agree on the chunk of band `band` agree on it afterwards,
/// whatever the rest of them holds. So bands can be handed to different
/// workers and finished in any order with the same result.
pub proof fn lemma_bands_are_independent(
    before: Seq<u8>,
    other: Seq<u8>,
    strips: StripsView,
    stride: int,
    width: u32,
    chunk: int,
    paint: SolidPaint,
    tables: FineTables,
    simd: Simd,
    band: int,
)
    requires
        before.len() == other.len(),
        chunk > 0,
        0 <= band,
        band * chunk < before.len(),
        before.subrange(band * chunk, if (band + 1) * chunk < before.len() { (band + 1) * chunk } else { before.len() as int })
            == other.subrange(band * chunk, if (band + 1) * chunk < other.len() { (band + 1) * chunk } else { other.len() as int }),
    ensures
        ({
            let lo = band * chunk;
            let hi = if (band + 1) * chunk < before.len() { (band + 1) * chunk } else { before.len() as int };
            rendered(before, strips, stride, width, chunk, paint, tables, simd).subrange(lo, hi)
                == rendered(other, strips, stride, width, chunk, paint, tables, simd).subrange(lo, hi)
        }),
{
    let lo = band * chunk;
    let hi = if (band + 1) * chunk < before.len() { (band + 1) * chunk } else { before.len() as int };
    let first = rendered(before, strips, stride, width, chunk, paint, tables, simd);
    let second = rendered(other, strips, stride, width, chunk, paint, tables, simd);
    assert((band + 1) * chunk == band * chunk + chunk) by (nonlinear_arith);
    assert forall|i: int| lo <= i < hi implies first[i] == second[i] by {
        assert(before[i] == before.subrange(lo, hi)[i - lo]);
        assert(other[i] == other.subrange(lo, hi)[i - lo]);
        if strips.strips.len() != 0 {
            vstd::arithmetic::div_mod::lemma_fundamental_div_mod_converse(i, chunk, band, i - lo);
            let start = strips.strips[0].band as int * chunk;
            let reach = (strips.strips.last().band as int + 1) * chunk;
            let end = if reach < before.len() { reach } else { before.len() as int };
            let top = if lo + chunk < end { lo + chunk } else { end };
            if start <= i < end {
                assert(before.subrange(lo, top) =~= other.subrange(lo, top)) by {
                    assert forall|j: int| 0 <= j < top - lo implies before.subrange(lo, top)[j] == other.subrange(lo, top)[j] by {
                        assert(before.subrange(lo, hi)[j] == other.subrange(lo, hi)[j]);
                    }
                }
            }
        }
    }
    assert(first.subrange(lo, hi) =~= second.subrange(lo, hi));
}

/// A draw never writes a target's padding: a byte whose offset within its
/// scanline lies past the target's `width` pixels is left as it was, when
/// bands are whole numbers of scanlines.
pub proof fn lemma_render_keeps_padding(
    bytes: Seq<u8>,
    strips: StripsView,
    stride: int,
    width: u32,
    band_height: int,
    paint: SolidPaint,
    tables: FineTables,
    simd: Simd,
    i: int,
)
    requires
        4 * width <= stride,
        0 <= band_height,
        0 <= i < bytes.len(),
        i % stride >= 4 * width,
    ensures
        rendered(bytes, strips, stride, width, stride * band_height, paint, tables, simd)[i] == bytes[i],
{
    let chunk = stride * band_height;
    if chunk != 0 && strips.strips.len() != 0 {
        let start = strips.strips[0].band as int * chunk;
        let reach = (strips.strips.last().band as int + 1) * chunk;
        let end = if reach < bytes.len() { reach } else { bytes.len() as int };
        if start <= i < end {
            assert(chunk > 0) by (nonlinear_arith) requires chunk != 0, stride > 0, band_height >= 0, chunk == stride * band_height;
            let band = i / chunk;
            let lo = band * chunk;
            let hi = if lo + chunk < end { lo + chunk } else { end };
            assert(0 <= band);
            vstd::arithmetic::div_mod::lemma_fundamental_div_mod(i, chunk);
            assert(lo <= i < lo + chunk) by (nonlinear_arith)
                requires i == chunk * band + i % chunk, 0 <= i % chunk < chunk, lo == band * chunk;
            assert(lo == (band * band_height) * stride) by (nonlinear_arith)
                requires lo == band * chunk, chunk == stride * band_height;
            let q = i / stride;
            let r = i % stride;
            vstd::arithmetic::div_mod::lemma_fundamental_div_mod(i, stride);
            assert(i - lo == (q - band * band_height) * stride + r) by (nonlinear_arith)
                requires i == stride * q + r, lo == (band * band_height) * stride;
            vstd::arithmetic::div_mod::lemma_fundamental_div_mod_converse(i - lo, stride, q - band * band_height, r);
            lemma_band_keeps_padding(bytes.subrange(lo, hi), stride, width, strips, band as u32, paint, tables, simd, i - lo);
        }
    }
}

/// A row of a constant-coverage strip is composited at that row's own
/// coverage byte `alphas[row]`: where that byte is zero (or missing) the row
/// is left exactly as it was; where it is 255 under an opaque paint every
/// pixel of the row becomes the paint's bytes; at any other coverage, and at
/// full coverage under a paint that is not opaque, the row is the
/// source-over blend of the paint at that coverage.
pub proof fn lemma_uniform_row_uses_its_own_coverage(
    span: Seq<u8>,
    strip: Strip,
    row: int,
    alphas: Seq<u8>,
    pixels: int,
    paint: SolidPaint,
    tables: FineTables,
    simd: Simd,
)
    requires
        strip.kind is Uniform,
        0 <= row,
        0 <= pixels,
        span.len() == 4 * pixels,
    ensures
        (row >= alphas.len() || alphas[row] == 0)
            ==> strip_row(span, strip, row, alphas, pixels, paint, tables, simd) == span,
        (row < alphas.len() && alphas[row] == 255 && paint.opaque()) ==> ({
            let result = strip_row(span, strip, row, alphas, pixels, paint, tables, simd);
            &&& result.len() == span.len()
            &&& forall|i: int| 0 <= i < span.len() ==> #[trigger] result[i] == paint.encoded()[i % 4]
        }),
        (row < alphas.len() && alphas[row] != 0 && !(alphas[row] == 255 && paint.opaque()))
            ==> strip_row(span, strip, row, alphas, pixels, paint, tables, simd)
                == uniform_result(span, paint, tables, alphas[row]),
        !paint.opaque() && row < alphas.len() && alphas[row] == 255
            ==> strip_row(span, strip, row, alphas, pixels, paint, tables, simd)
                == uniform_result(span, paint, tables, 255),
{
}

/// A row of a per-pixel strip is composited pixel by pixel at that row's own
/// coverage bytes: pixel `p` of row `row` at byte `row * strip.width + p`. On
/// the scalar kernel a pixel whose byte is zero is left exactly as it was,
/// and every other pixel is the source-over blend at its byte. A row whose
/// bytes run past the strip's coverage is left alone.
pub proof fn lemma_alpha_row_uses_its_own_coverage(
    span: Seq<u8>,
    strip: Strip,
    row: int,
    alphas: Seq<u8>,
    pixels: int,
    paint: SolidPaint,
    tables: FineTables,
    simd: Simd,
)
    requires
        strip.kind is Alpha,
        0 <= row,
        0 <= pixels,
        span.len() == 4 * pixels,
    ensures
        row * strip.width + pixels > alphas.len()
            ==> strip_row(span, strip, row, alphas, pixels, paint, tables, simd) == span,
        row * strip.width + pixels <= alphas.len() ==> ({
            let result = strip_row(span, strip, row, alphas, pixels, paint, tables, simd);
            &&& result.len() == span.len()
            &&& forall|i: int| 0 <= i < span.len() && #[trigger] alphas[row * strip.width + i / 4] != 0
                ==> result[i] == blend_byte(paint, tables, alpha_level(alphas[row * strip.width + i / 4] as int), i % 4, span[i])
            &&& forall|i: int| 0 <= i < span.len() && #[trigger] alphas[row * strip.width + i / 4] == 0
                && (simd != Simd::Avx2 || tables.round_trips()) ==> result[i] == span[i]
        }),
{
    assert(0 <= row * strip.width) by (nonlinear_arith) requires 0 <= row;
    if row * strip.width + pixels <= alphas.len() {
        let result = strip_row(span, strip, row, alphas, pixels, paint, tables, simd);
        let coverage = alphas.subrange(row * strip.width, row * strip.width + pixels);
        assert forall|i: int| 0 <= i < span.len() implies #[trigger] result[i] == (
            if alphas[row * strip.width + i / 4] != 0 {
                blend_byte(paint, tables, alpha_level(alphas[row * strip.width + i / 4] as int), i % 4, span[i])
            } else if simd != Simd::Avx2 || tables.round_trips() {
                span[i]
            } else {
                result[i]
            }) by {
            assert(0 <= i / 4 < pixels);
            assert(coverage[i / 4] == alphas[row * strip.width + i / 4]);
            if alphas[row * strip.width + i / 4] == 0 && tables.round_trips() {
                assert(alpha_level(0) == 0);
                crate::fine::lemma_blend_at_zero_is_identity(paint, tables, i % 4, span[i]);
            }
        }
    }
}

/// At full coverage an opaque paint's blend is its own bytes: the plain
/// store a fully covered row takes under an opaque paint writes exactly what
/// the source-over blend would, whatever lay beneath.
pub proof fn lemma_full_opaque_blend_is_the_paint(span: Seq<u8>, paint: SolidPaint, tables: FineTables, pixels: int)
    requires
        paint.well_formed(),
        paint.prepared_with(tables),
        paint.opaque(),
        0 <= pixels,
        span.len() == 4 * pixels,
    ensures
        uniform_result(span, paint, tables, 255) == with_pattern(span, 0, pixels, paint.encoded()),
{
    let blended = uniform_result(span, paint, tables, 255);
    let stored = with_pattern(span, 0, pixels, paint.encoded());
    assert(alpha_level(255) == 4096);
    assert(paint.level(3) == 4096);
    lemma_scale_by_full(4096);
    assert forall|i: int| 0 <= i < span.len() implies blended[i] == stored[i] by {
        let slot = i % 4;
        assert(0 <= slot < 4);
        assert(scale_spec(paint.level(3) as int, 4096) == 4096);
        if slot < 3 {
            lemma_scale_by_full(paint.level(slot) as int);
            assert(scale_spec(tables.decode_level(span[i] as int) as int, 0) == 0);
        } else {
            assert(scale_spec(alpha_level(span[i] as int), 0) == 0);
        }
    }
    assert(blended =~= stored);
}

/// What a render counts for one row of a strip follows the path the row
/// takes: a constant-coverage row whose coverage byte is zero (or missing) is
/// left alone and counts nothing; one an opaque paint covers fully is
/// stored, every pixel of it; any other covered row is blended, every pixel
/// of it. A row never counts more pixels than it has.
pub proof fn lemma_row_counts_follow_the_path(strip: Strip, alphas: Seq<u8>, row: int, pixels: int, opaque: bool)
    requires
        0 <= row,
        0 <= pixels,
    ensures
        strip.kind is Uniform && (row >= alphas.len() || alphas[row] == 0)
            ==> row_counts(strip, alphas, row, pixels, opaque) == (0int, 0int),
        strip.kind is Uniform && row < alphas.len() && alphas[row] == 255 && opaque
            ==> row_counts(strip, alphas, row, pixels, opaque) == (pixels, 0int),
        strip.kind is Uniform && row < alphas.len() && alphas[row] != 0 && !(alphas[row] == 255 && opaque)
            ==> row_counts(strip, alphas, row, pixels, opaque) == (0int, pixels),
        strip.kind is Alpha ==> row_counts(strip, alphas, row, pixels, opaque) == (0int, pixels),
        0 <= row_counts(strip, alphas, row, pixels, opaque).0,
        0 <= row_counts(strip, alphas, row, pixels, opaque).1,
        row_counts(strip, alphas, row, pixels, opaque).0 + row_counts(strip, alphas, row, pixels, opaque).1 <= pixels,
{
}

proof fn lemma_filter_none(all: Seq<Strip>, band: u32)
    requires
        forall|k: int| 0 <= k < all.len() ==> #[trigger] all[k].band != band,
    ensures
        all.filter(|s: Strip| s.band == band).len() == 0,
    decreases all.len(),
{
    reveal(Seq::filter);
    if all.len() > 0 {
        assert forall|k: int| 0 <= k < all.drop_last().len() implies #[trigger] all.drop_last()[k].band != band by {
            assert(all.drop_last()[k] == all[k]);
        }
        lemma_filter_none(all.drop_last(), band);
        assert(all[all.len() - 1].band != band);
    }
}

/// A band that none of the draw's strips belongs to is left exactly as it
/// was: a band is written only by its own strips.
pub proof fn lemma_band_without_strips_is_unchanged(
    rows: Seq<u8>,
    stride: int,
    width: u32,
    strips: StripsView,
    band: u32,
    paint: SolidPaint,
    tables: FineTables,
    simd: Simd,
)
    requires
        forall|k: int| 0 <= k < strips.strips.len() ==> #[trigger] strips.strips[k].band != band,
    ensures
        band_result(rows, stride, width, strips, band, paint, tables, simd) == rows,
{
    lemma_filter_none(strips.strips, band);
}

/// After a draw, a byte in the chunk of a band that none of the strips
/// belongs to holds what it held before: whatever band the draw starts at,
/// no band receives another band's strips.
pub proof fn lemma_draw_leaves_bands_without_strips(
    bytes: Seq<u8>,
    strips: StripsView,
    stride: int,
    width: u32,
    chunk: int,
    paint: SolidPaint,
    tables: FineTables,
    simd: Simd,
    i: int,
)
    requires
        chunk > 0,
        0 <= i < bytes.len(),
        forall|k: int| 0 <= k < strips.strips.len() ==> #[trigger] strips.strips[k].band != i / chunk,
    ensures
        rendered(bytes, strips, stride, width, chunk, paint, tables, simd)[i] == bytes[i],
{
    if strips.strips.len() != 0 {
        let start = strips.strips[0].band as int * chunk;
        let reach = (strips.strips.last().band as int + 1) * chunk;
        let end = if reach < bytes.len() { reach } else { bytes.len() as int };
        if start <= i < end {
            let band = i / chunk;
            let lo = band * chunk;
            let hi = if lo + chunk < end { lo + chunk } else { end };
            vstd::arithmetic::div_mod::lemma_fundamental_div_mod(i, chunk);
            assert(lo <= i < lo + chunk) by (nonlinear_arith)
                requires i == chunk * band + i % chunk, 0 <= i % chunk < chunk, lo == band * chunk;
            assert(0 <= band) by (nonlinear_arith)
                requires i == chunk * band + i % chunk, 0 <= i % chunk < chunk, 0 <= i, chunk > 0;
            assert(band <= strips.strips.last().band) by {
                if band > strips.strips.last().band {
                    assert(band * chunk >= (strips.strips.last().band as int + 1) * chunk) by (nonlinear_arith)
                        requires band >= strips.strips.last().band as int + 1, chunk > 0;
                    assert(false);
                }
            }
            assert(lo <= i < hi);
            assert(bytes.subrange(lo, hi)[i - lo] == bytes[i]);
            assert forall|k: int| 0 <= k < strips.strips.len() implies #[trigger] strips.strips[k].band != band as u32 by {
                assert(strips.strips[k].band != i / chunk);
            }
            lemma_band_without_strips_is_unchanged(bytes.subrange(lo, hi), stride, width, strips, band as u32, paint, tables, simd);
        }
    }
}

/// After a draw, the chunk of every band from the first strip's band to the
/// last strip's holds that band's own result: band `b`'s scanlines composited
/// by exactly the strips of band `b`, whichever band the draw starts at.
pub proof fn lemma_draw_renders_each_band_with_its_own_strips(
    bytes: Seq<u8>,
    strips: StripsView,
    stride: int,
    width: u32,
    chunk: int,
    paint: SolidPaint,
    tables: FineTables,
    simd: Simd,
    b: int,
)
    requires
        chunk > 0,
        0 <= stride,
        strips.strips.len() > 0,
        strips.strips[0].band <= b <= strips.strips.last().band,
        b * chunk < bytes.len(),
    ensures
        ({
            let lo = b * chunk;
            let hi = if lo + chunk < bytes.len() { lo + chunk } else { bytes.len() as int };
            rendered(bytes, strips, stride, width, chunk, paint, tables, simd).subrange(lo, hi)
                == band_result(bytes.subrange(lo, hi), stride, width, strips, b as u32, paint, tables, simd)
        }),
{
    let lo = b * chunk;
    let hi = if lo + chunk < bytes.len() { lo + chunk } else { bytes.len() as int };
    let out = rendered(bytes, strips, stride, width, chunk, paint, tables, simd);
    let result = band_result(bytes.subrange(lo, hi), stride, width, strips, b as u32, paint, tables, simd);
    let start = strips.strips[0].band as int * chunk;
    let reach = (strips.strips.last().band as int + 1) * chunk;
    let end = if reach < bytes.len() { reach } else { bytes.len() as int };
    assert(start <= lo) by (nonlinear_arith)
        requires start == strips.strips[0].band as int * chunk, lo == b * chunk, strips.strips[0].band <= b, chunk > 0;
    assert(lo + chunk <= reach) by (nonlinear_arith)
        requires reach == (strips.strips.last().band as int + 1) * chunk, lo == b * chunk, b <= strips.strips.last().band, chunk > 0;
    lemma_band_result_len(bytes.subrange(lo, hi), stride, width, strips, b as u32, paint, tables, simd);
    assert forall|i: int| 0 <= i < hi - lo implies #[trigger] out.subrange(lo, hi)[i] == result[i] by {
        vstd::arithmetic::div_mod::lemma_fundamental_div_mod_converse(lo + i, chunk, b, i);
        assert((lo + i) / chunk == b);
    }
    assert(out.subrange(lo, hi) =~= result);
}

/// What the first `n` rows of a lone strip `s` leave at byte `i` of a band:
/// inside one of those rows' spans, that row composited from the band's
/// original bytes; anywhere else, the original byte.
spec fn rows_expected(
    rows: Seq<u8>,
    stride: int,
    width: u32,
    s: Strip,
    n: int,
    alphas: Seq<u8>,
    paint: SolidPaint,
    tables: FineTables,
    simd: Simd,
    i: int,
) -> u8 {
    let pixels = span_width(s, width);
    let r = i / stride;
    let col = i % stride;
    if r < n && 4 * s.x <= col < 4 * (s.x + pixels) {
        let st = r * stride + 4 * s.x;
        strip_row(rows.subrange(st, st + 4 * pixels), s, r, alphas, pixels, paint, tables, simd)[i - st]
    } else {
        rows[i]
    }
}

proof fn lemma_rows_of_lone_strip(
    rows: Seq<u8>,
    stride: int,
    width: u32,
    s: Strip,
    n: nat,
    alphas: Seq<u8>,
    paint: SolidPaint,
    tables: FineTables,
    simd: Simd,
)
    requires
        stride > 0,
        4 * width <= stride,
        n * stride <= rows.len(),
        span_width(s, width) > 0,
    ensures
        apply_rows(rows, stride, width, s, n, alphas, paint, tables, simd).len() == rows.len(),
        forall|i: int| 0 <= i < rows.len() ==> #[trigger] apply_rows(rows, stride, width, s, n, alphas, paint, tables, simd)[i]
            == rows_expected(rows, stride, width, s, n as int, alphas, paint, tables, simd, i),
    decreases n,
{
    let pixels = span_width(s, width);
    if n == 0 {
        assert forall|i: int| 0 <= i < rows.len() implies #[trigger] apply_rows(rows, stride, width, s, n, alphas, paint, tables, simd)[i]
            == rows_expected(rows, stride, width, s, n as int, alphas, paint, tables, simd, i) by {
            vstd::arithmetic::div_mod::lemma_fundamental_div_mod(i, stride);
            assert(0 <= i / stride) by (nonlinear_arith)
                requires i == stride * (i / stride) + i % stride, 0 <= i % stride < stride, 0 <= i;
        }
    } else {
        let m = (n - 1) as nat;
        assert(m * stride <= rows.len()) by (nonlinear_arith) requires n * stride <= rows.len(), m == n - 1, stride > 0;
        lemma_rows_of_lone_strip(rows, stride, width, s, m, alphas, paint, tables, simd);
        let before = apply_rows(rows, stride, width, s, m, alphas, paint, tables, simd);
        let after = apply_rows(rows, stride, width, s, n, alphas, paint, tables, simd);
        let start = m * stride + s.x as int * 4;
        let end = start + pixels * 4;
        assert(0 <= m * stride) by (nonlinear_arith) requires stride > 0;
        assert(n * stride == m * stride + stride) by (nonlinear_arith) requires m == n - 1;
        assert(s.x < width && s.x + pixels <= width);
        assert(end <= m * stride + stride);
        assert(end <= before.len());
        let span = before.subrange(start, end);
        assert(span =~= rows.subrange(start, end)) by {
            assert forall|j: int| 0 <= j < end - start implies span[j] == rows.subrange(start, end)[j] by {
                let at = start + j;
                vstd::arithmetic::div_mod::lemma_fundamental_div_mod_converse(at, stride, m as int, at - m * stride);
                assert(before[at] == rows_expected(rows, stride, width, s, m as int, alphas, paint, tables, simd, at));
            }
        }
        let composed = strip_row(span, s, m as int, alphas, pixels, paint, tables, simd);
        assert(composed.len() == span.len());
        assert(after == before.subrange(0, start) + composed + before.subrange(end, before.len() as int));
        assert forall|i: int| 0 <= i < rows.len() implies #[trigger] after[i]
            == rows_expected(rows, stride, width, s, n as int, alphas, paint, tables, simd, i) by {
            vstd::arithmetic::div_mod::lemma_fundamental_div_mod(i, stride);
            let r = i / stride;
            let col = i % stride;
            assert(0 <= r) by (nonlinear_arith)
                requires i == stride * r + col, 0 <= col < stride, 0 <= i;
            assert(r * stride == stride * r) by (nonlinear_arith);
            if start <= i < end {
                vstd::arithmetic::div_mod::lemma_fundamental_div_mod_converse(i, stride, m as int, i - m * stride);
                assert(after[i] == composed[i - start]);
            } else {
                assert(after[i] == before[i]);
                if r == m {
                    assert(!(4 * s.x <= col < 4 * (s.x + pixels)));
                } else if r > m {
                    assert(r >= n);
                }
            }
        }
    }
}

proof fn lemma_filter_single(all: Seq<Strip>, band: u32)
    requires
        all.len() == 1,
        all[0].band == band,
    ensures
        all.filter(|s: Strip| s.band == band) == all,
{
    reveal(Seq::filter);
    assert(all.drop_last() =~= Seq::<Strip>::empty());
    assert(Seq::<Strip>::empty().filter(|s: Strip| s.band == band) =~= Seq::<Strip>::empty());
    assert(Seq::<Strip>::empty().push(all[0]) =~= all);
}

/// A lone strip of a band composites exactly its own rectangle: row `r` of
/// the band, for each of the strip's rows that the band holds, has the pixel
/// columns from `x` to `x + width` (clipped to the target) composited as that
/// row of the strip, and every other byte of the band is left as it was.
pub proof fn lemma_lone_strip_draws_its_rectangle(
    rows: Seq<u8>,
    stride: int,
    width: u32,
    strips: StripsView,
    band: u32,
    paint: SolidPaint,
    tables: FineTables,
    simd: Simd,
    i: int,
)
    requires
        stride > 0,
        4 * width <= stride,
        strips.strips.len() == 1,
        strips.strips[0].band == band,
        0 <= i < rows.len(),
    ensures
        ({
            let s = strips.strips[0];
            let pixels = if s.x >= width { 0 } else if (s.width as int) < width - s.x { s.width as int } else { width - s.x };
            let r = i / stride;
            let col = i % stride;
            band_result(rows, stride, width, strips, band, paint, tables, simd)[i] == (
                if r < s.rows && (r + 1) * stride <= rows.len() && 4 * s.x <= col < 4 * (s.x + pixels) {
                    let st = r * stride + 4 * s.x;
                    strip_row(rows.subrange(st, st + 4 * pixels), s, r, strip_alphas_of(strips.alphas, s), pixels, paint, tables, simd)[i - st]
                } else {
                    rows[i]
                })
        }),
{
    let s = strips.strips[0];
    let a = strip_alphas_of(strips.alphas, s);
    lemma_filter_single(strips.strips, band);
    let len = rows.len() as int;
    let n = drawn_rows(s, len, stride);
    let available = len / stride;
    vstd::arithmetic::div_mod::lemma_fundamental_div_mod(len, stride);
    assert(available * stride <= len) by (nonlinear_arith)
        requires len == stride * available + len % stride, 0 <= len % stride;
    assert(n * stride <= len) by (nonlinear_arith)
        requires n <= available, available * stride <= len, stride > 0;
    vstd::arithmetic::div_mod::lemma_fundamental_div_mod(i, stride);
    let r = i / stride;
    assert(0 <= r) by (nonlinear_arith)
        requires i == stride * r + i % stride, 0 <= i % stride < stride, 0 <= i;
    assert((r + 1) * stride <= len <==> r < available) by {
        if r < available {
            assert((r + 1) * stride <= available * stride) by (nonlinear_arith) requires r + 1 <= available, stride > 0;
        } else {
            assert((r + 1) * stride > len) by (nonlinear_arith)
                requires r >= available, stride > 0,
                    len == stride * available + len % stride, len % stride < stride;
        }
    }
    let in_band = strips.strips.filter(|t: Strip| t.band == band);
    assert(in_band == strips.strips);
    assert(apply_strips(rows, stride, width, in_band, strips.alphas, 0, paint, tables, simd) == rows);
    if span_width(s, width) != 0 {
        lemma_rows_of_lone_strip(rows, stride, width, s, n, a, paint, tables, simd);
        assert(band_result(rows, stride, width, strips, band, paint, tables, simd)
            == apply_rows(rows, stride, width, s, n, a, paint, tables, simd));
        assert(band_result(rows, stride, width, strips, band, paint, tables, simd)[i]
            == rows_expected(rows, stride, width, s, n as int, a, paint, tables, simd, i));
    } else {
        assert(band_result(rows, stride, width, strips, band, paint, tables, simd) == rows);
    }
}

proof fn lemma_rows_counts_constant(strip: Strip, alphas: Seq<u8>, n: nat, pixels: int, opaque: bool, x: int, y: int)
    requires
        forall|r: int| 0 <= r < n ==> #[trigger] row_counts(strip, alphas, r, pixels, opaque) == (x, y),
    ensures
        rows_counts(strip, alphas, n, pixels, opaque) == (n * x, n * y),
    decreases n,
{
    if n > 0 {
        lemma_rows_counts_constant(strip, alphas, (n - 1) as nat, pixels, opaque, x, y);
        assert(row_counts(strip, alphas, n - 1, pixels, opaque) == (x, y));
        assert((n - 1) * x + x == n * x) by (nonlinear_arith);
        assert((n - 1) * y + y == n * y) by (nonlinear_arith);
    } else {
        assert(0 * x == 0 && 0 * y == 0) by (nonlinear_arith);
    }
}

proof fn lemma_uniform_rows_counts(s: Strip, a: Seq<u8>, n: nat, pixels: int, opaque: bool)
    requires
        s.kind is Uniform,
    ensures
        (opaque && a.len() >= n && forall|r: int| 0 <= r < n ==> #[trigger] a[r] == 255)
            ==> rows_counts(s, a, n, pixels, opaque) == (n * pixels, 0int),
        (forall|r: int| 0 <= r < n ==> r >= a.len() || #[trigger] a[r] == 0)
            ==> rows_counts(s, a, n, pixels, opaque) == (0int, 0int),
        (!opaque && a.len() >= n && forall|r: int| 0 <= r < n ==> #[trigger] a[r] != 0)
            ==> rows_counts(s, a, n, pixels, opaque) == (0int, n * pixels),
{
    assert(n * 0int == 0) by (nonlinear_arith);
    if opaque && a.len() >= n && forall|r: int| 0 <= r < n ==> #[trigger] a[r] == 255 {
        assert forall|r: int| 0 <= r < n implies #[trigger] row_counts(s, a, r, pixels, opaque) == (pixels, 0int) by {
            assert(r < a.len() && a[r] == 255);
        }
        lemma_rows_counts_constant(s, a, n, pixels, opaque, pixels, 0);
    }
    if forall|r: int| 0 <= r < n ==> r >= a.len() || #[trigger] a[r] == 0 {
        assert forall|r: int| 0 <= r < n implies #[trigger] row_counts(s, a, r, pixels, opaque) == (0int, 0int) by {
            assert(r >= a.len() || a[r] == 0);
        }
        lemma_rows_counts_constant(s, a, n, pixels, opaque, 0, 0);
    }
    if !opaque && a.len() >= n && forall|r: int| 0 <= r < n ==> #[trigger] a[r] != 0 {
        assert forall|r: int| 0 <= r < n implies #[trigger] row_counts(s, a, r, pixels, opaque) == (0int, pixels) by {
            assert(r < a.len() && a[r] != 0);
        }
        lemma_rows_counts_constant(s, a, n, pixels, opaque, 0, pixels);
    }
}

/// What a draw of one strip counts, `pixels` being its width clipped to the
/// target: a per-pixel strip blends every pixel of every row; a
/// constant-coverage strip that covers every row fully under an opaque paint
/// stores every pixel of every row; one that covers no row counts nothing;
/// and one that covers every row under a paint that is not opaque blends
/// every pixel of every row.
pub proof fn lemma_lone_strip_counts(strips: StripsView, width: u32, paint: SolidPaint)
    requires
        strips.strips.len() == 1,
    ensures
        ({
            let s = strips.strips[0];
            let a = strip_alphas_of(strips.alphas, s);
            let pixels = if s.x >= width { 0 } else if (s.width as int) < width - s.x { s.width as int } else { width - s.x };
            let all = s.rows * pixels;
            &&& s.kind is Alpha ==> draw_counts(strips, width, paint) == (0int, all)
            &&& (s.kind is Uniform && paint.opaque() && a.len() >= s.rows && forall|r: int| 0 <= r < s.rows ==> #[trigger] a[r] == 255)
                ==> draw_counts(strips, width, paint) == (all, 0int)
            &&& (s.kind is Uniform && forall|r: int| 0 <= r < s.rows ==> r >= a.len() || #[trigger] a[r] == 0)
                ==> draw_counts(strips, width, paint) == (0int, 0int)
            &&& (s.kind is Uniform && !paint.opaque() && a.len() >= s.rows && forall|r: int| 0 <= r < s.rows ==> #[trigger] a[r] != 0)
                ==> draw_counts(strips, width, paint) == (0int, all)
        }),
{
    let s = strips.strips[0];
    let a = strip_alphas_of(strips.alphas, s);
    let pixels = span_width(s, width);
    let opaque = paint.opaque();
    let n = s.rows as nat;
    assert(strips_counts(strips.strips, strips.alphas, width, 0, opaque) == (0int, 0int));
    assert(draw_counts(strips, width, paint) == (if pixels == 0 { (0int, 0int) } else { rows_counts(s, a, n, pixels, opaque) }));
    assert(n * 0 == 0) by (nonlinear_arith);
    assert(s.rows * 0int == 0) by (nonlinear_arith);
    if s.kind is Alpha {
        lemma_rows_counts_constant(s, a, n, pixels, opaque, 0, pixels);
    }
    if s.kind is Uniform {
        lemma_uniform_rows_counts(s, a, n, pixels, opaque);
    }
}

/// The bytes a draw's strips reach in a target of `len` bytes cut into bands
/// of `chunk` bytes: from the first strip's band to the end of the last
/// strip's band, or the end of the target if that comes first. Returns the
/// first band and the byte range, or `None` when nothing is reached.
pub fn reached_span(strips: &Strips<'_>, chunk: usize, len: usize) -> (span: Option<(usize, usize, usize)>)
    ensures
        ({
            let all = strips@.strips;
            match span {
                Some((band, start, end)) => {
                    &&& chunk > 0
                    &&& all.len() > 0
                    &&& band == all[0].band
                    &&& start == band * chunk
                    &&& end == (if (all.last().band + 1) * chunk < len { (all.last().band + 1) * chunk } else { len as int })
                    &&& start < end
                },
                None => chunk == 0 || all.len() == 0 || all[0].band * chunk >= (
                    if (all.last().band + 1) * chunk < len { (all.last().band + 1) * chunk } else { len as int }),
            }
        }),
{
    let all = strips.strips();
    if chunk == 0 || all.len() == 0 {
        return None;
    }
    let first_band = all[0].band as usize;
    let last_band = all[all.len() - 1].band as usize;
    let start = match first_band.checked_mul(chunk) {
        Some(start) => start,
        None => {
            return None;
        },
    };
    let end = match last_band.checked_add(1) {
        Some(bands) => match bands.checked_mul(chunk) {
            Some(reach) => if reach < len { reach } else { len },
            None => {
                assert((last_band as int + 1) * (chunk as int) >= len) by (nonlinear_arith)
                    requires (last_band as int + 1) * (chunk as int) > usize::MAX, len <= usize::MAX;
                len
            },
        },
        None => {
            assert((last_band as int + 1) * (chunk as int) >= len) by (nonlinear_arith)
                requires last_band as int + 1 > usize::MAX, chunk >= 1, len <= usize::MAX;
            len
        },
    };
    if start >= end {
        return None;
    }
    Some((first_band, start, end))
}

/// Composites a solid paint through `strips` into `target`, band by band on
/// the calling thread.
///
/// Only the bands the strips reach are visited, so a frame of small shapes
/// costs their own height rather than the surface's. `simd` selects the
/// kernel; a choice that cannot run falls back to scalar.
pub fn render_solid_paint(
    target: &mut TargetMut<'_>,
    strips: &Strips<'_>,
    paint: &SolidPaint,
    tables: &FineTables,
    simd: Simd,
) -> (stats: FineStats)
    requires
        old(target)@.fits(),
        draw_counts(strips@, old(target)@.width, *paint).0 <= usize::MAX,
        draw_counts(strips@, old(target)@.width, *paint).1 <= usize::MAX,
        old(target)@.stride as int * strips@.geometry.height as int <= usize::MAX,
    ensures
        stats.pixels_stored == draw_counts(strips@, old(target)@.width, *paint).0,
        stats.pixels_blended == draw_counts(strips@, old(target)@.width, *paint).1,
        stats.simd == simd.resolved(),
        final(target)@ == (TargetView {
            bytes: rendered(
                old(target)@.bytes,
                strips@,
                old(target)@.stride as int,
                old(target)@.width,
                old(target)@.stride as int * strips@.geometry.height as int,
                *paint,
                *tables,
                simd.resolved(),
            ),
            ..old(target)@
        }),
        final(final(target).buffer())@ == final(old(target).buffer())@,
{
    let simd = simd.resolve();
    let width = target.width();
    let stride = target.stride();
    let band_height = strips.geometry().height as usize;
    let stats = match count(strips, width, paint, simd) {
        Some(stats) => stats,
        None => {
            assert(false);
            FineStats { pixels_stored: 0, pixels_blended: 0, simd }
        },
    };
    let ghost view = target@;
    let chunk = stride * band_height;
    let data = target.rows_mut();
    let len = data.len();
    let ghost initial = data@;
    let all = strips.strips();
    let (first_band, start, end) = match reached_span(strips, chunk, len) {
        Some(span) => span,
        None => {
            assert(data@ =~= rendered(initial, strips@, stride as int, width, chunk as int, *paint, *tables, simd));
            return stats;
        },
    };
    let last_band = all[all.len() - 1].band as usize;
    let ghost goal = rendered(initial, strips@, stride as int, width, chunk as int, *paint, *tables, simd);
    let mut band: usize = first_band;
    let mut lo: usize = start;
    while lo < end
        invariant
            len == data@.len(),
            len == initial.len(),
            chunk > 0,
            start == first_band * chunk,
            first_band == strips@.strips[0].band,
            last_band == strips@.strips.last().band,
            strips@.strips.len() > 0,
            end == (if (last_band + 1) * chunk < len { (last_band + 1) * chunk } else { len as int }),
            start <= lo,
            lo <= end || lo == start,
            lo == band * chunk || lo == end,
            goal == rendered(initial, strips@, stride as int, width, chunk as int, *paint, *tables, simd),
            forall|i: int| 0 <= i < len ==> #[trigger] data@[i] == (
                if start <= i < lo { goal[i] } else { initial[i] }),
        decreases end - lo,
    {
        let hi = if chunk < end - lo { lo + chunk } else { end };
        proof {
            assert(band < last_band + 1) by (nonlinear_arith)
                requires lo == band * chunk, lo < end, end <= (last_band + 1) * chunk, chunk > 0;
            assert(band <= lo) by (nonlinear_arith)
                requires lo == band * chunk, chunk > 0, band >= 0;
            assert((band + 1) * chunk == band * chunk + chunk) by (nonlinear_arith);
        }
        let ghost before = data@;
        let rows = subslice_mut(data, lo, hi);
        assert(rows@ =~= initial.subrange(lo as int, hi as int));
        render_band(rows, stride, width, strips, paint, tables, simd, band as u32);
        proof {
            lemma_band_result_len(initial.subrange(lo as int, hi as int), stride as int, width, strips@, band as u32, *paint, *tables, simd);
            let result = band_result(initial.subrange(lo as int, hi as int), stride as int, width, strips@, band as u32, *paint, *tables, simd);
            assert forall|i: int| lo <= i < hi implies #[trigger] data@[i] == goal[i] by {
                vstd::arithmetic::div_mod::lemma_fundamental_div_mod_converse(i, chunk as int, band as int, i - lo);
                assert(i / (chunk as int) == band);
                assert(data@[i] == result[i - lo]);
            }
        }
        lo = hi;
        band = band + 1;
    }
    assert(data@ =~= goal);
    stats
}

} // verus!
