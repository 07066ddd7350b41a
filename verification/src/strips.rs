//! Stage 5 output — sparse strips.
//!
//! Per-tile coverage becomes spans of per-pixel alpha where coverage varies
//! and spans of constant per-row alpha where it does not. A large filled
//! rectangle produces a handful of alpha spans at its edges and one constant
//! span across each band's interior, rather than millions of coverage values.
use vstd::prelude::*;

use crate::binning::{SurfaceSize, TileEntry, TileGeometry};

verus! {

/// What a strip carries.
#[derive(Debug, Clone, Copy, PartialEq, Eq, Structural)]
pub enum StripKind {
    /// `width * rows` alpha bytes at `offset`, row-major: row `r`, column `x`
    /// is at `offset + r * width + x`.
    Alpha { offset: u32 },
    /// `rows` alpha bytes at `offset`, constant across the span.
    ///
    /// A span with every byte 255 is the solid run: fully inside the shape,
    /// costing one byte per row however wide it is.
    Uniform { offset: u32 },
}

/// One span of coverage within a band.
#[derive(Debug, Clone, Copy, PartialEq, Eq, Structural)]
pub struct Strip {
    /// First pixel column.
    pub x: u32,
    /// Band index. The first pixel row is `band * geometry.height`.
    pub band: u32,
    /// Width in pixels.
    pub width: u32,
    /// Rows this strip covers. Less than the band height only in a final band
    /// that the surface cuts short.
    pub rows: u16,
    pub kind: StripKind,
}

/// What stage 5 produced.
#[derive(Debug, Clone, Copy, PartialEq, Eq, Default, Structural)]
pub struct StripStats {
    /// Bands that produced at least one strip.
    pub bands: usize,
    /// Spans with per-pixel coverage.
    pub alpha_strips: usize,
    /// Spans with constant coverage, solid runs included.
    pub uniform_strips: usize,
    /// Alpha bytes stored for per-pixel spans.
    pub alpha_pixels: usize,
}

/// Where a strip's alpha bytes start, and how many it has.
pub open spec fn strip_extent(strip: Strip) -> (int, int) {
    match strip.kind {
        StripKind::Alpha { offset } => (offset as int, strip.rows as int * strip.width as int),
        StripKind::Uniform { offset } => (offset as int, strip.rows as int),
    }
}

/// The alpha bytes belonging to a strip: its extent of `alphas`, or nothing
/// when the extent runs past the end.
pub open spec fn strip_alphas_of(alphas: Seq<u8>, strip: Strip) -> Seq<u8> {
    let (start, len) = strip_extent(strip);
    if start + len <= alphas.len() { alphas.subrange(start, start + len) } else { Seq::empty() }
}

/// Strips are emitted band by band: their band indices never decrease.
pub open spec fn sorted_by_band(strips: Seq<Strip>) -> bool {
    forall|i: int, j: int| 0 <= i <= j < strips.len() ==> #[trigger] strips[i].band <= #[trigger] strips[j].band
}

/// The abstract content of a [`Strips`].
pub struct StripsView {
    pub geometry: TileGeometry,
    pub surface: SurfaceSize,
    pub strips: Seq<Strip>,
    pub alphas: Seq<u8>,
    pub stats: StripStats,
}

impl Strip {
    /// True when the span has one alpha per row rather than per pixel.
    pub fn is_uniform(&self) -> (uniform: bool)
        ensures
            uniform == (self.kind is Uniform),
    {
        match self.kind {
            StripKind::Uniform { .. } => true,
            StripKind::Alpha { .. } => false,
        }
    }

    /// True when every row of the span is fully covered — a solid run.
    pub fn is_solid(&self, strips: &Strips<'_>) -> (solid: bool)
        ensures
            solid == (self.kind is Uniform && forall|i: int| 0 <= i < strip_alphas_of(strips@.alphas, *self).len()
                ==> #[trigger] strip_alphas_of(strips@.alphas, *self)[i] == 255),
    {
        if !self.is_uniform() {
            return false;
        }
        let alphas = strips.strip_alphas(self);
        let mut i: usize = 0;
        while i < alphas.len()
            invariant
                alphas@ == strip_alphas_of(strips@.alphas, *self),
                i <= alphas@.len(),
                forall|k: int| 0 <= k < i ==> #[trigger] alphas@[k] == 255,
            decreases alphas@.len() - i,
        {
            if alphas[i] != 255 {
                return false;
            }
            i = i + 1;
        }
        true
    }
}

/// Sparse strips for one draw.
#[derive(Debug, Clone, Copy)]
pub struct Strips<'a> {
    geometry: TileGeometry,
    surface: SurfaceSize,
    strips: &'a [Strip],
    alphas: &'a [u8],
    stats: StripStats,
}

impl<'a> View for Strips<'a> {
    type V = StripsView;

    closed spec fn view(&self) -> StripsView {
        StripsView {
            geometry: self.geometry,
            surface: self.surface,
            strips: self.strips@,
            alphas: self.alphas@,
            stats: self.stats,
        }
    }
}

impl<'a> Strips<'a> {
    #[verifier::type_invariant]
    spec fn in_band_order(self) -> bool {
        sorted_by_band(self.strips@)
    }

    /// Assembles strips from their parts. The strips must come band by band,
    /// which is what lets a band's strips be found by binary search.
    pub fn from_parts(
        geometry: TileGeometry,
        surface: SurfaceSize,
        strips: &'a [Strip],
        alphas: &'a [u8],
        stats: StripStats,
    ) -> (assembled: Option<Strips<'a>>)
        ensures
            assembled is Some <==> sorted_by_band(strips@),
            assembled matches Some(s) ==> s@ == (StripsView { geometry, surface, strips: strips@, alphas: alphas@, stats }),
    {
        let mut i: usize = 1;
        while i < strips.len()
            invariant
                1 <= i,
                i <= strips@.len() || strips@.len() == 0,
                forall|a: int, b: int| 0 <= a <= b < i && b < strips@.len() ==> #[trigger] strips@[a].band <= #[trigger] strips@[b].band,
            decreases strips@.len() - i,
        {
            if strips[i].band < strips[i - 1].band {
                return None;
            }
            proof {
                assert forall|a: int, b: int| 0 <= a <= b < i + 1 && b < strips@.len() implies #[trigger] strips@[a].band <= #[trigger] strips@[b].band by {
                    if b == i && a < b {
                        assert(strips@[a].band <= strips@[i - 1].band);
                    }
                }
            }
            i = i + 1;
        }
        Some(Strips { geometry, surface, strips, alphas, stats })
    }

    pub fn geometry(&self) -> (geometry: TileGeometry)
        ensures
            geometry == self@.geometry,
    {
        self.geometry
    }

    pub fn surface(&self) -> (surface: SurfaceSize)
        ensures
            surface == self@.surface,
    {
        self.surface
    }

    pub fn strips(&self) -> (strips: &'a [Strip])
        ensures
            strips@ == self@.strips,
    {
        self.strips
    }

    pub fn alphas(&self) -> (alphas: &'a [u8])
        ensures
            alphas@ == self@.alphas,
    {
        self.alphas
    }

    pub fn stats(&self) -> (stats: StripStats)
        ensures
            stats == self@.stats,
    {
        self.stats
    }

    /// The first index whose strip's band is not below `band` (`inclusive`
    /// false) or not at or below it (`inclusive` true).
    fn partition(&self, band: u32, inclusive: bool) -> (index: usize)
        ensures
            index <= self@.strips.len(),
            forall|i: int| 0 <= i < index ==> (if inclusive { #[trigger] self@.strips[i].band <= band } else { self@.strips[i].band < band }),
            forall|i: int| index <= i < self@.strips.len() ==> (if inclusive { #[trigger] self@.strips[i].band > band } else { self@.strips[i].band >= band }),
    {
        proof { use_type_invariant(self); }
        let mut lo: usize = 0;
        let mut hi: usize = self.strips.len();
        while lo < hi
            invariant
                lo <= hi <= self@.strips.len(),
                sorted_by_band(self@.strips),
                forall|i: int| 0 <= i < lo ==> (if inclusive { #[trigger] self@.strips[i].band <= band } else { self@.strips[i].band < band }),
                forall|i: int| hi <= i < self@.strips.len() ==> (if inclusive { #[trigger] self@.strips[i].band > band } else { self@.strips[i].band >= band }),
            decreases hi - lo,
        {
            let mid = lo + (hi - lo) / 2;
            let below = if inclusive { self.strips[mid].band <= band } else { self.strips[mid].band < band };
            if below {
                proof {
                    assert forall|i: int| 0 <= i < mid + 1 implies (if inclusive { #[trigger] self@.strips[i].band <= band } else { self@.strips[i].band < band }) by {
                        assert(self@.strips[i].band <= self@.strips[mid as int].band);
                    }
                }
                lo = mid + 1;
            } else {
                proof {
                    assert forall|i: int| mid <= i < self@.strips.len() implies (if inclusive { #[trigger] self@.strips[i].band > band } else { self@.strips[i].band >= band }) by {
                        assert(self@.strips[mid as int].band <= self@.strips[i].band);
                    }
                }
                hi = mid;
            }
        }
        lo
    }

    /// The range of [`Strips::strips`] belonging to one band: a binary search,
    /// since strips come band by band.
    pub fn band_range(&self, band: u32) -> (range: core::ops::Range<usize>)
        ensures
            range.start <= range.end <= self@.strips.len(),
            forall|i: int| 0 <= i < range.start ==> #[trigger] self@.strips[i].band < band,
            forall|i: int| range.start <= i < range.end ==> #[trigger] self@.strips[i].band == band,
            forall|i: int| range.end <= i < self@.strips.len() ==> #[trigger] self@.strips[i].band > band,
    {
        proof { use_type_invariant(self); }
        let start = self.partition(band, false);
        let end = self.partition(band, true);
        proof {
            if start > end {
                assert(self@.strips[end as int].band > band);
                assert(self@.strips[end as int].band < band);
            }
        }
        start..end
    }

    /// The strips belonging to one band.
    pub fn band_strips(&self, band: u32) -> (strips: &'a [Strip])
        ensures
            strips@ == self@.strips.filter(|s: Strip| s.band == band),
            forall|i: int| 0 <= i < strips@.len() ==> #[trigger] strips@[i].band == band,
    {
        let range = self.band_range(band);
        let strips = &self.strips[range.start..range.end];
        proof { self.lemma_band_is_filter(band, range.start as int, range.end as int); }
        strips
    }

    proof fn lemma_band_is_filter(&self, band: u32, start: int, end: int)
        requires
            0 <= start <= end <= self@.strips.len(),
            forall|i: int| 0 <= i < start ==> #[trigger] self@.strips[i].band < band,
            forall|i: int| start <= i < end ==> #[trigger] self@.strips[i].band == band,
            forall|i: int| end <= i < self@.strips.len() ==> #[trigger] self@.strips[i].band > band,
        ensures
            self@.strips.subrange(start, end) == self@.strips.filter(|s: Strip| s.band == band),
    {
        let all = self@.strips;
        let f = |s: Strip| s.band == band;
        assert(all == all.subrange(0, start) + all.subrange(start, end) + all.subrange(end, all.len() as int));
        Seq::<Strip>::filter_distributes_over_add(all.subrange(0, start) + all.subrange(start, end), all.subrange(end, all.len() as int), f);
        Seq::<Strip>::filter_distributes_over_add(all.subrange(0, start), all.subrange(start, end), f);
        lemma_filter_none(all.subrange(0, start), f);
        lemma_filter_none(all.subrange(end, all.len() as int), f);
        lemma_filter_all(all.subrange(start, end), f);
        assert(all.subrange(0, start).filter(f) + all.subrange(start, end) + all.subrange(end, all.len() as int).filter(f)
            =~= all.subrange(start, end));
    }

    /// The alpha bytes belonging to a strip, or none when its extent runs past
    /// the stored bytes.
    pub fn strip_alphas(&self, strip: &Strip) -> (alphas: &'a [u8])
        ensures
            alphas@ == strip_alphas_of(self@.alphas, *strip),
    {
        let total = self.alphas.len();
        let (offset, len) = match strip.kind {
            StripKind::Alpha { offset } => (offset, (strip.rows as usize).checked_mul(strip.width as usize)),
            StripKind::Uniform { offset } => (offset, Some(strip.rows as usize)),
        };
        let start = offset as usize;
        match len {
            Some(len) => {
                if start <= total && len <= total - start {
                    let alphas = &self.alphas[start..start + len];
                    alphas
                } else {
                    let alphas: &[u8] = &[];
                    assert(alphas@ =~= Seq::<u8>::empty());
                    alphas
                }
            },
            None => {
                let alphas: &[u8] = &[];
                assert(alphas@ =~= Seq::<u8>::empty());
                alphas
            },
        }
    }

    /// Coverage at a pixel within a strip, zero outside it.
    pub fn coverage(&self, strip: &Strip, row: u16, column: u32) -> (coverage: u8)
        ensures
            coverage == ({
                let alphas = strip_alphas_of(self@.alphas, *strip);
                let at = if strip.kind is Alpha { row as int * strip.width as int + column as int } else { row as int };
                if row >= strip.rows || column >= strip.width || at >= alphas.len() { 0 } else { alphas[at] }
            }),
    {
        if row >= strip.rows || column >= strip.width {
            return 0;
        }
        let alphas = self.strip_alphas(strip);
        match strip.kind {
            StripKind::Alpha { .. } => {
                if alphas.len() == 0 {
                    return 0;
                }
                proof {
                    assert(row as int * strip.width as int + (column as int) < strip.rows as int * strip.width as int) by (nonlinear_arith)
                        requires row < strip.rows, column < strip.width;
                }
                let at = row as usize * strip.width as usize + column as usize;
                if at < alphas.len() { alphas[at] } else { 0 }
            },
            StripKind::Uniform { .. } => {
                if (row as usize) < alphas.len() { alphas[row as usize] } else { 0 }
            },
        }
    }
}

proof fn lemma_filter_none(s: Seq<Strip>, f: spec_fn(Strip) -> bool)
    requires
        forall|i: int| 0 <= i < s.len() ==> !f(#[trigger] s[i]),
    ensures
        s.filter(f) =~= Seq::<Strip>::empty(),
    decreases s.len(),
{
    reveal_with_fuel(Seq::filter, 1);
    if s.len() > 0 {
        lemma_filter_none(s.drop_last(), f);
    }
}

proof fn lemma_filter_all(s: Seq<Strip>, f: spec_fn(Strip) -> bool)
    requires
        forall|i: int| 0 <= i < s.len() ==> f(#[trigger] s[i]),
    ensures
        s.filter(f) =~= s,
    decreases s.len(),
{
    reveal_with_fuel(Seq::filter, 1);
    if s.len() > 0 {
        lemma_filter_all(s.drop_last(), f);
        assert(s.drop_last().push(s.last()) =~= s);
    }
}

/// Where the band that starts at tile `start` ends: the first tile after it
/// in another tile row, or the end of `tiles`. Tiles come in row-major
/// order, so a band's tiles are consecutive.
pub fn band_end(tiles: &[TileEntry], start: usize) -> (end: usize)
    requires
        start < tiles@.len(),
    ensures
        start < end <= tiles@.len(),
        forall|i: int| start <= i < end ==> #[trigger] tiles@[i].y == tiles@[start as int].y,
        end < tiles@.len() ==> tiles@[end as int].y != tiles@[start as int].y,
{
    let row = tiles[start].y;
    let mut end = start + 1;
    while end < tiles.len() && tiles[end].y == row
        invariant
            start < end <= tiles@.len(),
            row == tiles@[start as int].y,
            forall|i: int| start <= i < end ==> #[trigger] tiles@[i].y == row,
        decreases tiles@.len() - end,
    {
        end = end + 1;
    }
    end
}

/// The scanlines of band `band` that lie on a surface `surface_height` tall,
/// cut into tiles `tile_height` high: all of the band's, or fewer for a last
/// band the surface cuts short, and `None` for a band that starts below the
/// surface.
pub fn band_rows(band: u16, tile_height: u16, surface_height: u32) -> (rows: Option<u16>)
    ensures
        ({
            let top = band as int * tile_height as int;
            if top >= surface_height {
                rows is None
            } else {
                rows == Some((if surface_height - top < tile_height { surface_height - top } else { tile_height as int }) as u16)
            }
        }),
{
    assert(band as int * tile_height as int <= 65535 * 65535) by (nonlinear_arith)
        requires band <= 65535, tile_height <= 65535;
    let top = band as u32 * tile_height as u32;
    if top >= surface_height {
        return None;
    }
    let left = surface_height - top;
    let rows = if left < tile_height as u32 { left } else { tile_height as u32 };
    Some(rows as u16)
}

/// Where the run of adjacent tile columns that starts at tile `start` ends:
/// the first tile that is not one column right of the tile before it, or
/// the end of `tiles`.
pub fn run_end(tiles: &[TileEntry], start: usize) -> (end: usize)
    requires
        start < tiles@.len(),
    ensures
        start < end <= tiles@.len(),
        forall|i: int| start < i < end ==> #[trigger] tiles@[i].x == tiles@[i - 1].x + 1,
        end < tiles@.len() ==> tiles@[end as int].x != tiles@[end - 1].x + 1,
{
    let count = tiles.len();
    let mut end = start + 1;
    while end < count && tiles[end].x as u32 == tiles[end - 1].x as u32 + 1
        invariant
            count == tiles@.len(),
            start < end <= tiles@.len(),
            forall|i: int| start < i < end ==> #[trigger] tiles@[i].x == tiles@[i - 1].x + 1,
        decreases tiles@.len() - end,
    {
        end = end + 1;
    }
    end
}

/// The pixel columns a run of tile columns `first ..= last`, each
/// `tile_width` pixels wide, covers on a surface `surface_width` wide.
pub fn run_columns(first: u16, last: u16, tile_width: u16, surface_width: u32) -> (span: (u32, u32))
    ensures
        span.0 == first as int * tile_width as int,
        span.1 == (if ((last as int + 1) * (tile_width as int)) < surface_width {
            (last as int + 1) * tile_width as int
        } else {
            surface_width as int
        }),
{
    assert(first as int * tile_width as int <= 65535 * 65535) by (nonlinear_arith)
        requires first <= 65535, tile_width <= 65535;
    assert((last as int + 1) * tile_width as int <= 65536 * 65535) by (nonlinear_arith)
        requires last <= 65535, tile_width <= 65535;
    let lo = first as u32 * tile_width as u32;
    let reach = (last as u32 + 1) * tile_width as u32;
    (lo, if reach < surface_width { reach } else { surface_width })
}

/// Where the run of adjacent tile columns that starts at tile `start` ends.
pub open spec fn run_end_of(tiles: Seq<TileEntry>, start: int) -> int
    decreases tiles.len() - start,
{
    if 0 <= start && start + 1 < tiles.len() && tiles[start + 1].x == tiles[start].x + 1 {
        run_end_of(tiles, start + 1)
    } else {
        start + 1
    }
}

proof fn lemma_run_end_of_is(tiles: Seq<TileEntry>, start: int, end: int)
    requires
        0 <= start < end <= tiles.len(),
        forall|i: int| start < i < end ==> #[trigger] tiles[i].x == tiles[i - 1].x + 1,
        end < tiles.len() ==> tiles[end].x != tiles[end - 1].x + 1,
    ensures
        run_end_of(tiles, start) == end,
    decreases end - start,
{
    if end > start + 1 {
        assert(tiles[start + 1].x == tiles[start + 1 - 1].x + 1);
        lemma_run_end_of_is(tiles, start + 1, end);
    }
}

/// A run that starts inside the tiles ends after its first tile and no
/// later than the end of the tiles.
pub proof fn lemma_run_end_of_bounds(tiles: Seq<TileEntry>, start: int)
    requires
        0 <= start < tiles.len(),
    ensures
        start < run_end_of(tiles, start) <= tiles.len(),
    decreases tiles.len() - start,
{
    if start + 1 < tiles.len() && tiles[start + 1].x == tiles[start].x + 1 {
        lemma_run_end_of_bounds(tiles, start + 1);
    }
}

/// One run of adjacent tile columns of a band, as the strip generator walks it: the
/// band's tiles `first .. end`, the pixel columns `x_lo .. x_hi` they cover
/// on the surface, and `gap_from`, where the run before it ended (zero for
/// the first), so that columns `gap_from .. x_lo` are the gap no segment
/// crosses.
#[derive(Debug, Clone, Copy, PartialEq, Eq, Structural)]
pub struct TileRun {
    pub first: usize,
    pub end: usize,
    pub gap_from: u32,
    pub x_lo: u32,
    pub x_hi: u32,
}

/// The runs of the band's tiles from tile `start` on, the previous run
/// having ended at column `cursor`: maximal runs of adjacent tile columns,
/// each clipped to the surface, and a run the surface leaves no columns of
/// skipped.
pub open spec fn runs_from(tiles: Seq<TileEntry>, start: int, cursor: u32, tile_width: u16, surface_width: u32) -> Seq<TileRun>
    decreases tiles.len() - start,
{
    if start < 0 || start >= tiles.len() {
        Seq::empty()
    } else {
        let end = run_end_of(tiles, start);
        let x_lo = tiles[start].x as int * tile_width as int;
        let reach = (tiles[end - 1].x as int + 1) * tile_width as int;
        let x_hi = if reach < surface_width { reach } else { surface_width as int };
        proof {
            lemma_run_end_of_bounds(tiles, start);
        }
        if x_hi <= x_lo {
            runs_from(tiles, end, cursor, tile_width, surface_width)
        } else {
            seq![TileRun { first: start as usize, end: end as usize, gap_from: cursor, x_lo: x_lo as u32, x_hi: x_hi as u32 }]
                + runs_from(tiles, end, x_hi as u32, tile_width, surface_width)
        }
    }
}

/// The runs the strip generator walks in one band whose tiles are `band_tiles`, tiles
/// `tile_width` pixels wide on a surface `surface_width` wide. The gap after
/// the last run reaches from its `x_hi` (or zero, with no run) to the
/// surface's right edge.
pub fn plan_runs(band_tiles: &[TileEntry], tile_width: u16, surface_width: u32) -> (plan: Vec<TileRun>)
    ensures
        plan@ == runs_from(band_tiles@, 0, 0, tile_width, surface_width),
{
    let count = band_tiles.len();
    let mut plan: Vec<TileRun> = Vec::new();
    let mut start: usize = 0;
    let mut cursor: u32 = 0;
    while start < count
        invariant
            count == band_tiles@.len(),
            start <= count,
            plan@ + runs_from(band_tiles@, start as int, cursor, tile_width, surface_width)
                == runs_from(band_tiles@, 0, 0, tile_width, surface_width),
        decreases count - start,
    {
        let end = run_end(band_tiles, start);
        proof {
            lemma_run_end_of_is(band_tiles@, start as int, end as int);
        }
        let (x_lo, x_hi) = run_columns(band_tiles[start].x, band_tiles[end - 1].x, tile_width, surface_width);
        let ghost rest = runs_from(band_tiles@, end as int, x_hi, tile_width, surface_width);
        if x_hi > x_lo {
            let run = TileRun { first: start, end, gap_from: cursor, x_lo, x_hi };
            proof {
                assert(runs_from(band_tiles@, start as int, cursor, tile_width, surface_width) == seq![run] + rest);
                assert(plan@.push(run) + rest =~= plan@ + (seq![run] + rest));
            }
            plan.push(run);
            cursor = x_hi;
        }
        start = end;
    }
    assert(plan@ + Seq::<TileRun>::empty() =~= plan@);
    plan
}

/// Where the band that starts at tile `start` ends.
pub open spec fn band_end_of(tiles: Seq<TileEntry>, start: int) -> int
    decreases tiles.len() - start,
{
    if 0 <= start && start + 1 < tiles.len() && tiles[start + 1].y == tiles[start].y {
        band_end_of(tiles, start + 1)
    } else {
        start + 1
    }
}

proof fn lemma_band_end_of_is(tiles: Seq<TileEntry>, start: int, end: int)
    requires
        0 <= start < end <= tiles.len(),
        forall|i: int| start <= i < end ==> #[trigger] tiles[i].y == tiles[start].y,
        end < tiles.len() ==> tiles[end].y != tiles[start].y,
    ensures
        band_end_of(tiles, start) == end,
    decreases end - start,
{
    if end > start + 1 {
        assert(tiles[start + 1].y == tiles[start].y);
        assert forall|i: int| start + 1 <= i < end implies #[trigger] tiles[i].y == tiles[start + 1].y by {
            assert(tiles[i].y == tiles[start].y);
        }
        lemma_band_end_of_is(tiles, start + 1, end);
    }
}

/// A band that starts inside the tiles ends after its first tile and no
/// later than the end of the tiles.
pub proof fn lemma_band_end_of_bounds(tiles: Seq<TileEntry>, start: int)
    requires
        0 <= start < tiles.len(),
    ensures
        start < band_end_of(tiles, start) <= tiles.len(),
    decreases tiles.len() - start,
{
    if start + 1 < tiles.len() && tiles[start + 1].y == tiles[start].y {
        lemma_band_end_of_bounds(tiles, start + 1);
    }
}

/// One band of a draw's tiles, as the strip generator walks them: the tiles
/// `first .. end`, all in tile row `band`, of which `rows` scanlines lie on
/// the surface.
#[derive(Debug, Clone, Copy, PartialEq, Eq, Structural)]
pub struct TileBand {
    pub first: usize,
    pub end: usize,
    pub band: u16,
    pub rows: u16,
}

/// The bands of the tiles from tile `start` on: maximal groups of
/// consecutive tiles in one tile row, a band that starts below the surface
/// skipped.
pub open spec fn bands_from(tiles: Seq<TileEntry>, start: int, tile_height: u16, surface_height: u32) -> Seq<TileBand>
    decreases tiles.len() - start,
{
    if start < 0 || start >= tiles.len() {
        Seq::empty()
    } else {
        let end = band_end_of(tiles, start);
        let band = tiles[start].y;
        let top = band as int * tile_height as int;
        proof {
            lemma_band_end_of_bounds(tiles, start);
        }
        if top >= surface_height {
            bands_from(tiles, end, tile_height, surface_height)
        } else {
            let rows = if surface_height - top < tile_height { surface_height - top } else { tile_height as int };
            seq![TileBand { first: start as usize, end: end as usize, band, rows: rows as u16 }]
                + bands_from(tiles, end, tile_height, surface_height)
        }
    }
}

/// The bands the strip generator walks over a draw's tiles `tiles`, in
/// row-major order, cut `tile_height` scanlines high on a surface
/// `surface_height` tall.
pub fn plan_bands(tiles: &[TileEntry], tile_height: u16, surface_height: u32) -> (plan: Vec<TileBand>)
    ensures
        plan@ == bands_from(tiles@, 0, tile_height, surface_height),
{
    let count = tiles.len();
    let mut plan: Vec<TileBand> = Vec::new();
    let mut start: usize = 0;
    while start < count
        invariant
            count == tiles@.len(),
            start <= count,
            plan@ + bands_from(tiles@, start as int, tile_height, surface_height)
                == bands_from(tiles@, 0, tile_height, surface_height),
        decreases count - start,
    {
        let end = band_end(tiles, start);
        proof {
            lemma_band_end_of_is(tiles@, start as int, end as int);
        }
        let band = tiles[start].y;
        let ghost rest = bands_from(tiles@, end as int, tile_height, surface_height);
        match band_rows(band, tile_height, surface_height) {
            Some(rows) => {
                let entry = TileBand { first: start, end, band, rows };
                proof {
                    assert(bands_from(tiles@, start as int, tile_height, surface_height) == seq![entry] + rest);
                    assert(plan@.push(entry) + rest =~= plan@ + (seq![entry] + rest));
                }
                plan.push(entry);
            },
            None => {},
        }
        start = end;
    }
    assert(plan@ + Seq::<TileBand>::empty() =~= plan@);
    plan
}

/// How many identical adjacent columns are worth a constant span of their
/// own.
///
/// A constant span costs `rows` bytes however wide it is, but committing one
/// mid-edge also ends the per-pixel span either side of it, and a strip
/// record costs more than a handful of alpha bytes. Eight is where the saving
/// covers the split.
pub const MIN_UNIFORM_RUN: u32 = 8;

/// `count` copies of `column`, one after another.
pub open spec fn repeat_column(column: Seq<u8>, count: nat) -> Seq<u8>
    decreases count,
{
    if count == 0 {
        Seq::empty()
    } else {
        repeat_column(column, (count - 1) as nat) + column
    }
}

/// Column-major coverage — `rows` bytes per column, `width` columns — read
/// out row by row.
pub open spec fn transposed(columns: Seq<u8>, rows: int, width: int) -> Seq<u8> {
    Seq::new((rows * width) as nat, |i: int| columns[(i % width) * rows + i / width])
}

/// The abstract content of a [`Striper`]: what it has emitted, and the
/// columns it is still holding back.
pub struct StriperView {
    pub strips: Seq<Strip>,
    pub alphas: Seq<u8>,
    pub stats: StripStats,
    /// The band being emitted and its height.
    pub band: u32,
    pub rows: u16,
    /// A run of identical columns not yet committed: `group_count` copies of
    /// `group` from column `group_x`.
    pub group: Seq<u8>,
    pub group_x: u32,
    pub group_count: u32,
    /// A per-pixel span not yet committed: column-major coverage from column
    /// `alpha_x`, when `alpha_active`.
    pub columns: Seq<u8>,
    pub alpha_x: u32,
    pub alpha_active: bool,
}

impl StriperView {
    /// The counters agree with what was emitted, strips come band by band up
    /// to the current band, and a held-back group is one column high.
    pub open spec fn wf(self) -> bool {
        &&& self.stats.uniform_strips + self.stats.alpha_strips == self.strips.len()
        &&& self.stats.alpha_pixels <= self.alphas.len()
        &&& self.stats.bands <= self.strips.len()
        &&& sorted_by_band(self.strips)
        &&& forall|i: int| 0 <= i < self.strips.len() ==> #[trigger] self.strips[i].band <= self.band
        &&& self.rows > 0
        &&& self.group_count > 0 ==> self.group.len() == self.rows
        &&& self.group_count > 0 ==> self.group_x as int + self.group_count as int <= u32::MAX
    }

    /// The per-pixel span committed, if one is open and has a whole column.
    pub open spec fn flushed(self) -> StriperView {
        let width = self.columns.len() as int / self.rows as int;
        if !self.alpha_active {
            self
        } else if width == 0 {
            StriperView { alpha_active: false, ..self }
        } else {
            StriperView {
                alpha_active: false,
                columns: Seq::empty(),
                alphas: self.alphas + transposed(self.columns, self.rows as int, width),
                strips: self.strips.push(Strip {
                    x: self.alpha_x,
                    band: self.band,
                    width: width as u32,
                    rows: self.rows,
                    kind: StripKind::Alpha { offset: self.alphas.len() as u32 },
                }),
                stats: StripStats {
                    alpha_strips: (self.stats.alpha_strips + 1) as usize,
                    alpha_pixels: (self.stats.alpha_pixels + width * self.rows) as usize,
                    ..self.stats
                },
                ..self
            }
        }
    }

    /// The held-back group committed: as a constant span when it is at
    /// least [`MIN_UNIFORM_RUN`] columns wide (ending the per-pixel span
    /// before it), otherwise folded into the per-pixel span.
    pub open spec fn group_closed(self) -> StriperView {
        if self.group_count == 0 {
            self
        } else if self.group_count >= MIN_UNIFORM_RUN {
            let f = self.flushed();
            StriperView {
                group_count: 0,
                alphas: f.alphas + self.group,
                strips: f.strips.push(Strip {
                    x: self.group_x,
                    band: self.band,
                    width: self.group_count,
                    rows: self.rows,
                    kind: StripKind::Uniform { offset: f.alphas.len() as u32 },
                }),
                stats: StripStats { uniform_strips: (f.stats.uniform_strips + 1) as usize, ..f.stats },
                ..f
            }
        } else if self.alpha_active {
            StriperView {
                group_count: 0,
                columns: self.columns + repeat_column(self.group, self.group_count as nat),
                ..self
            }
        } else {
            StriperView {
                group_count: 0,
                alpha_active: true,
                alpha_x: self.group_x,
                columns: repeat_column(self.group, self.group_count as nat),
                ..self
            }
        }
    }
}

impl StriperView {
    /// After column `x` with coverage `column` is taken: it extends the run
    /// of identical columns being counted, or that run is closed and a new
    /// one starts at `x`.
    pub open spec fn taken(self, x: u32, column: Seq<u8>) -> StriperView {
        if self.group_count > 0 && column == self.group {
            StriperView { group_count: (self.group_count + 1) as u32, ..self }
        } else {
            StriperView { group: column, group_x: x, group_count: 1, ..self.group_closed() }
        }
    }

    /// After the spans being built are ended: the run being counted is
    /// committed, then the per-pixel span.
    pub open spec fn ended(self) -> StriperView {
        self.group_closed().flushed()
    }

    /// After a constant span over `x0 .. x1` with coverage `column` is
    /// emitted — nothing, when the span is empty or has no coverage.
    pub open spec fn gapped(self, x0: u32, x1: u32, column: Seq<u8>) -> StriperView {
        if x0 < x1 && any_coverage(column) {
            StriperView {
                alphas: self.alphas + column,
                strips: self.strips.push(Strip {
                    x: x0,
                    band: self.band,
                    width: (x1 - x0) as u32,
                    rows: self.rows,
                    kind: StripKind::Uniform { offset: self.alphas.len() as u32 },
                }),
                stats: StripStats { uniform_strips: (self.stats.uniform_strips + 1) as usize, ..self.stats },
                ..self
            }
        } else {
            self
        }
    }
}

/// Whether any byte of `column` is non-zero.
pub open spec fn any_coverage(column: Seq<u8>) -> bool {
    exists|r: int| 0 <= r < column.len() && #[trigger] column[r] != 0
}

/// Reusable stage 5 workspace: the strips and alpha bytes of the draw being
/// produced, and the coverage columns not yet committed to a strip.
///
/// Coverage arrives one column of a band at a time; runs of identical
/// columns become constant spans, and everything else is gathered into
/// per-pixel spans. Held across frames so a steady-state pass allocates
/// nothing.
#[derive(Debug)]
pub struct Striper {
    strips: Vec<Strip>,
    alphas: Vec<u8>,
    stats: StripStats,
    band: u32,
    rows: u16,
    group: Vec<u8>,
    group_x: u32,
    group_count: u32,
    columns: Vec<u8>,
    alpha_x: u32,
    alpha_active: bool,
}

impl View for Striper {
    type V = StriperView;

    closed spec fn view(&self) -> StriperView {
        StriperView {
            strips: self.strips@,
            alphas: self.alphas@,
            stats: self.stats,
            band: self.band,
            rows: self.rows,
            group: self.group@,
            group_x: self.group_x,
            group_count: self.group_count,
            columns: self.columns@,
            alpha_x: self.alpha_x,
            alpha_active: self.alpha_active,
        }
    }
}

/// Nothing emitted yet.
pub open spec fn no_strip_stats() -> StripStats {
    StripStats { bands: 0, alpha_strips: 0, uniform_strips: 0, alpha_pixels: 0 }
}

/// Appends `columns`, `rows` bytes per column and `width` columns, to
/// `alphas` row by row.
fn append_transposed(alphas: &mut Vec<u8>, columns: &Vec<u8>, rows: usize, width: usize)
    requires
        rows > 0,
        rows * width <= columns@.len(),
    ensures
        final(alphas)@ == old(alphas)@ + transposed(columns@, rows as int, width as int),
{
    let ghost base = old(alphas)@;
    let ghost goal = transposed(columns@, rows as int, width as int);
    let n = columns.len();
    let mut row: usize = 0;
    while row < rows
        invariant
            rows > 0,
            n == columns@.len(),
            rows * width <= columns@.len(),
            row <= rows,
            goal == transposed(columns@, rows as int, width as int),
            alphas@ == base + goal.take(row * width),
        decreases rows - row,
    {
        let mut column: usize = 0;
        while column < width
            invariant
                rows > 0,
                n == columns@.len(),
                rows * width <= columns@.len(),
                row < rows,
                column <= width,
                goal == transposed(columns@, rows as int, width as int),
                alphas@ == base + goal.take(row * width + column),
            decreases width - column,
        {
            proof {
                assert(column * rows + row < rows * width) by (nonlinear_arith)
                    requires column < width, row < rows;
                assert(row * width + column < rows * width) by (nonlinear_arith)
                    requires column < width, row < rows;
                vstd::arithmetic::div_mod::lemma_fundamental_div_mod_converse(
                    row * width + column, width as int, row as int, column as int);
            }
            let byte = columns[column * rows + row];
            alphas.push(byte);
            assert(goal.take(row * width + column + 1) =~= goal.take(row * width + column).push(byte));
            column = column + 1;
        }
        assert((row + 1) * width == row * width + width) by (nonlinear_arith);
        row = row + 1;
    }
    assert(goal.take(rows * width) =~= goal);
}

/// Appends `count` copies of `column` to `columns`.
fn append_repeated(columns: &mut Vec<u8>, column: &Vec<u8>, count: u32)
    ensures
        final(columns)@ == old(columns)@ + repeat_column(column@, count as nat),
{
    let ghost base = old(columns)@;
    let mut i: u32 = 0;
    while i < count
        invariant
            i <= count,
            columns@ == base + repeat_column(column@, i as nat),
        decreases count - i,
    {
        columns.extend_from_slice(column.as_slice());
        assert(repeat_column(column@, (i + 1) as nat) == repeat_column(column@, i as nat) + column@);
        assert(columns@ =~= base + repeat_column(column@, (i + 1) as nat));
        i = i + 1;
    }
}

/// Whether two columns hold the same bytes.
fn same_column(a: &[u8], b: &Vec<u8>) -> (same: bool)
    ensures
        same == (a@ == b@),
{
    if a.len() != b.len() {
        return false;
    }
    let mut i: usize = 0;
    while i < a.len()
        invariant
            a@.len() == b@.len(),
            i <= a@.len(),
            forall|k: int| 0 <= k < i ==> #[trigger] a@[k] == b@[k],
        decreases a@.len() - i,
    {
        if a[i] != b[i] {
            return false;
        }
        i = i + 1;
    }
    assert(a@ =~= b@);
    true
}

/// `a + b`, or `usize::MAX` when that does not fit.
fn saturating_sum(a: usize, b: usize) -> (sum: usize)
    ensures
        sum == (if a + b <= usize::MAX { (a + b) as usize } else { usize::MAX }),
{
    match a.checked_add(b) {
        Some(sum) => sum,
        None => usize::MAX,
    }
}

/// The number of elements `v` has room for, with std's `Vec::capacity`.
///
/// Trusted, not proved: as std documents, the capacity is at least the
/// length. How much more the allocator gave is not stated: it depends on the
/// allocator and the history of the vector.
#[verifier::external_body]
fn allocated<T>(v: &Vec<T>) -> (capacity: usize)
    ensures
        capacity >= v@.len(),
{
    v.capacity()
}

impl Striper {
    pub fn new() -> (striper: Striper)
        ensures
            striper@.wf(),
            striper@.strips.len() == 0,
            striper@.alphas.len() == 0,
            striper@.stats == no_strip_stats(),
            striper@.group_count == 0,
            !striper@.alpha_active,
    {
        Striper {
            strips: Vec::new(),
            alphas: Vec::new(),
            stats: StripStats { bands: 0, alpha_strips: 0, uniform_strips: 0, alpha_pixels: 0 },
            band: 0,
            rows: 1,
            group: Vec::new(),
            group_x: 0,
            group_count: 0,
            columns: Vec::new(),
            alpha_x: 0,
            alpha_active: false,
        }
    }

    /// Starts a draw: forgets the strips of the last one.
    pub fn clear(&mut self)
        ensures
            final(self)@ == (StriperView {
                strips: Seq::empty(),
                alphas: Seq::empty(),
                stats: no_strip_stats(),
                band: 0,
                group_count: 0,
                alpha_active: false,
                columns: Seq::empty(),
                ..old(self)@
            }),
            old(self)@.rows > 0 ==> final(self)@.wf(),
    {
        self.strips.clear();
        self.alphas.clear();
        self.columns.clear();
        self.stats = StripStats { bands: 0, alpha_strips: 0, uniform_strips: 0, alpha_pixels: 0 };
        self.band = 0;
        self.group_count = 0;
        self.alpha_active = false;
    }

    /// Starts band `band`, `rows` scanlines high. Bands come in order.
    pub fn begin_band(&mut self, band: u32, rows: u16)
        requires
            old(self)@.wf(),
            old(self)@.band <= band,
            rows > 0,
        ensures
            final(self)@ == (StriperView {
                band,
                rows,
                group_count: 0,
                alpha_active: false,
                ..old(self)@
            }),
            final(self)@.wf(),
    {
        self.band = band;
        self.rows = rows;
        self.group_count = 0;
        self.alpha_active = false;
    }

    /// Counts the band just finished if it produced a strip; `before` is how
    /// many strips there were when it began.
    pub fn end_band(&mut self, before: usize)
        requires
            old(self)@.wf(),
            before <= old(self)@.strips.len(),
            old(self)@.stats.bands <= before,
        ensures
            final(self)@ == (StriperView {
                stats: StripStats {
                    bands: (if old(self)@.strips.len() > before { old(self)@.stats.bands + 1 } else { old(self)@.stats.bands as int }) as usize,
                    ..old(self)@.stats
                },
                ..old(self)@
            }),
            final(self)@.wf(),
    {
        if self.strips.len() > before {
            self.stats.bands = self.stats.bands + 1;
        }
    }

    /// Bytes currently held: the strips emitted, and the room allocated for
    /// alpha bytes and for the columns held back. Saturates rather than
    /// overflowing.
    pub fn memory_usage(&self) -> (bytes: usize)
        ensures
            bytes >= (if self@.strips.len() * vstd::layout::size_of::<Strip>() + self@.alphas.len()
                + self@.columns.len() + self@.group.len() <= usize::MAX {
                self@.strips.len() * vstd::layout::size_of::<Strip>() + self@.alphas.len()
                    + self@.columns.len() + self@.group.len()
            } else {
                usize::MAX as nat
            }),
    {
        let strips = match self.strips.len().checked_mul(core::mem::size_of::<Strip>()) {
            Some(bytes) => bytes,
            None => usize::MAX,
        };
        let alphas = allocated(&self.alphas);
        let columns = allocated(&self.columns);
        let group = allocated(&self.group);
        saturating_sum(saturating_sum(saturating_sum(strips, alphas), columns), group)
    }

    /// How many strips have been emitted.
    pub fn strip_count(&self) -> (count: usize)
        ensures
            count == self@.strips.len(),
    {
        self.strips.len()
    }

    /// Emits a constant span over columns `x0 .. x1` of the current band
    /// with coverage `column` — one byte per row — unless it is empty or
    /// carries no coverage at all.
    pub fn gap(&mut self, x0: u32, x1: u32, column: &[u8])
        requires
            old(self)@.wf(),
            column@.len() == old(self)@.rows,
        ensures
            final(self)@.wf(),
            final(self)@ == old(self)@.gapped(x0, x1, column@),
    {
        if x1 <= x0 {
            return;
        }
        let mut any = false;
        let mut r: usize = 0;
        while r < column.len()
            invariant
                r <= column@.len(),
                any == exists|k: int| 0 <= k < r && #[trigger] column@[k] != 0,
            decreases column@.len() - r,
        {
            if column[r] != 0 {
                any = true;
            }
            r = r + 1;
        }
        if !any {
            assert(!any_coverage(column@));
            return;
        }
        assert(any_coverage(column@));
        let ghost before = self@;
        let offset = self.alphas.len() as u32;
        self.alphas.extend_from_slice(column);
        assert(self.alphas@ =~= before.alphas + column@);
        let _ = self.alphas.len();
        self.push_strip(Strip { x: x0, band: self.band, width: x1 - x0, rows: self.rows, kind: StripKind::Uniform { offset } });
        self.stats.uniform_strips = self.stats.uniform_strips + 1;
    }

    /// Appends a strip of the current band, keeping the band order.
    fn push_strip(&mut self, strip: Strip)
        requires
            sorted_by_band(old(self).strips@),
            forall|i: int| 0 <= i < old(self).strips@.len() ==> #[trigger] old(self).strips@[i].band <= old(self).band,
            strip.band == old(self).band,
        ensures
            final(self).strips@ == old(self).strips@.push(strip),
            final(self).strips@.len() <= usize::MAX,
            sorted_by_band(final(self).strips@),
            forall|i: int| 0 <= i < final(self).strips@.len() ==> #[trigger] final(self).strips@[i].band <= final(self).band,
            final(self).alphas == old(self).alphas,
            final(self).stats == old(self).stats,
            final(self).band == old(self).band,
            final(self).rows == old(self).rows,
            final(self).group == old(self).group,
            final(self).group_x == old(self).group_x,
            final(self).group_count == old(self).group_count,
            final(self).columns == old(self).columns,
            final(self).alpha_x == old(self).alpha_x,
            final(self).alpha_active == old(self).alpha_active,
    {
        self.strips.push(strip);
        let _ = self.strips.len();
        assert(sorted_by_band(self.strips@));
    }

    /// Commits the per-pixel span, if one is open.
    fn flush_alpha(&mut self)
        requires
            old(self)@.wf(),
        ensures
            final(self)@ == old(self)@.flushed(),
            final(self)@.wf(),
    {
        let ghost before = self@;
        if !self.alpha_active {
            return;
        }
        self.alpha_active = false;
        let rows = self.rows as usize;
        let width = self.columns.len() / rows;
        if width == 0 {
            return;
        }
        proof {
            let n = self.columns@.len() as int;
            vstd::arithmetic::div_mod::lemma_fundamental_div_mod(n, rows as int);
            assert(rows * width <= n) by (nonlinear_arith)
                requires width == n / (rows as int), rows > 0, n == rows * (n / (rows as int)) + n % (rows as int),
                    n % (rows as int) >= 0;
        }
        let offset = self.alphas.len() as u32;
        append_transposed(&mut self.alphas, &self.columns, rows, width);
        let _ = self.alphas.len();
        self.columns.clear();
        self.push_strip(Strip { x: self.alpha_x, band: self.band, width: width as u32, rows: self.rows, kind: StripKind::Alpha { offset } });
        proof {
            assert(width * rows == rows * width) by (nonlinear_arith);
            assert(self.alphas@.len() == before.alphas.len() + rows * width);
        }
        self.stats.alpha_strips = self.stats.alpha_strips + 1;
        self.stats.alpha_pixels = self.stats.alpha_pixels + width * rows;
        proof {
            let f = before.flushed();
            assert(f.alphas == self.alphas@);
            assert(f.strips == self.strips@);
            assert(f.stats == self.stats);
            assert(f.columns =~= self.columns@);
            assert(self@ =~= before.flushed());
        }
    }

    /// Commits the run of identical columns being counted.
    fn close_group(&mut self)
        requires
            old(self)@.wf(),
        ensures
            final(self)@ == old(self)@.group_closed(),
            final(self)@.wf(),
    {
        if self.group_count == 0 {
            return;
        }
        let ghost start = self@;
        let count = self.group_count;
        let x = self.group_x;
        self.group_count = 0;
        if count >= MIN_UNIFORM_RUN {
            self.flush_alpha();
            let ghost flushed = self@;
            let offset = self.alphas.len() as u32;
            self.alphas.extend_from_slice(self.group.as_slice());
            let _ = self.alphas.len();
            self.push_strip(Strip { x, band: self.band, width: count, rows: self.rows, kind: StripKind::Uniform { offset } });
            self.stats.uniform_strips = self.stats.uniform_strips + 1;
            proof {
                assert(self.alphas@ =~= flushed.alphas + start.group);
                assert(self@ =~= start.group_closed());
            }
            return;
        }
        if !self.alpha_active {
            self.alpha_active = true;
            self.alpha_x = x;
            self.columns.clear();
        }
        append_repeated(&mut self.columns, &self.group, count);
        proof {
            assert(self@ =~= start.group_closed());
        }
    }

    /// Takes the coverage of column `x`, which has some coverage: it extends
    /// the run of identical columns being counted, or closes that run and
    /// starts a new one. Columns come left to right without gaps while a run
    /// is open.
    pub fn take_column(&mut self, x: u32, column: &[u8])
        requires
            old(self)@.wf(),
            column@.len() == old(self)@.rows,
            x < u32::MAX,
            old(self)@.group_count > 0 ==> x == old(self)@.group_x + old(self)@.group_count,
        ensures
            final(self)@.wf(),
            final(self)@ == old(self)@.taken(x, column@),
    {
        if self.group_count > 0 && same_column(column, &self.group) {
            self.group_count = self.group_count + 1;
            return;
        }
        let ghost start = self@;
        self.close_group();
        self.group.clear();
        self.group.extend_from_slice(column);
        self.group_x = x;
        self.group_count = 1;
        proof {
            assert(self.group@ =~= column@);
            assert(self@ =~= (StriperView { group: column@, group_x: x, group_count: 1, ..start.group_closed() }));
        }
    }

    /// Ends the spans being built: a column without coverage, or the end of
    /// a run of tiles, commits the group being counted and then the
    /// per-pixel span.
    pub fn end_span(&mut self)
        requires
            old(self)@.wf(),
        ensures
            final(self)@ == old(self)@.ended(),
            final(self)@.wf(),
    {
        self.close_group();
        self.flush_alpha();
    }

    /// The strips emitted so far, for a surface `surface` binned with
    /// `geometry`.
    pub fn finish(&self, geometry: TileGeometry, surface: SurfaceSize) -> (strips: Strips<'_>)
        requires
            self@.wf(),
        ensures
            strips@ == (StripsView { geometry, surface, strips: self@.strips, alphas: self@.alphas, stats: self@.stats }),
    {
        Strips {
            geometry,
            surface,
            strips: self.strips.as_slice(),
            alphas: self.alphas.as_slice(),
            stats: self.stats,
        }
    }

    /// Builds a single band holding one per-pixel span of the given coverage:
    /// the first `width` bytes of `coverage` (all of them, if there are
    /// fewer), on one row.
    ///
    /// This is how a chosen coverage run is handed to stage 6 — the one place
    /// two kernels must agree bit for bit, which needs every combination of
    /// coverage and destination byte rather than the ones a picture happens
    /// to contain. Strip layout is an internal format, not a stable API.
    pub fn from_coverage(&mut self, coverage: &[u8], width: u32) -> (strips: Strips<'_>)
        ensures
            ({
                let w = if width < (coverage@.len() as u32) { width } else { coverage@.len() as u32 };
                let g = (if w == 0 { 1 } else { w }) as u16;
                &&& strips@.geometry == TileGeometry { width: if g == 0 { 1 } else { g }, height: 1 }
                &&& strips@.surface == SurfaceSize { width: w, height: 1 }
                &&& strips@.alphas == coverage@.subrange(0, w as int)
                &&& if w > 0 {
                    &&& strips@.strips == seq![Strip { x: 0, band: 0, width: w, rows: 1, kind: StripKind::Alpha { offset: 0 } }]
                    &&& strips@.stats == StripStats { bands: 1, alpha_strips: 1, uniform_strips: 0, alpha_pixels: w as usize }
                } else {
                    &&& strips@.strips.len() == 0
                    &&& strips@.stats == no_strip_stats()
                }
            }),
            final(self)@.wf(),
            final(self)@.group_count == 0,
            !final(self)@.alpha_active,
    {
        self.strips.clear();
        self.alphas.clear();
        self.columns.clear();
        self.stats = StripStats { bands: 0, alpha_strips: 0, uniform_strips: 0, alpha_pixels: 0 };
        self.band = 0;
        self.rows = 1;
        self.group_count = 0;
        self.alpha_active = false;
        let available = coverage.len() as u32;
        let width = if width < available { width } else { available };
        if width > 0 {
            self.alphas.extend_from_slice(&coverage[0..width as usize]);
            self.strips.push(Strip { x: 0, band: 0, width, rows: 1, kind: StripKind::Alpha { offset: 0 } });
            self.stats.bands = 1;
            self.stats.alpha_strips = 1;
            self.stats.alpha_pixels = width as usize;
        }
        assert(self.alphas@ =~= coverage@.subrange(0, width as int));
        let geometry = TileGeometry::new((if width == 0 { 1 } else { width }) as u16, 1);
        Strips {
            geometry,
            surface: SurfaceSize::new(width, 1),
            strips: self.strips.as_slice(),
            alphas: self.alphas.as_slice(),
            stats: self.stats,
        }
    }
}

} // verus!
