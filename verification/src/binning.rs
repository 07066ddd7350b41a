//! Stage 4 — bin: assign each device-space segment to every tile it touches.
//!
//! Two properties matter downstream. Storage is sparse: only tiles some
//! segment touches have an entry. And the output is deterministic: segments
//! within a tile always come out in the same order, because stage 5
//! accumulates signed area and floating-point addition is not associative.
//!
//! Deciding which tiles a segment touches is floating-point geometry and
//! happens outside this module; the binner records each `(tile, segment)`
//! assignment and then groups them — a total order on the assignments, then
//! one run of segment indices per occupied tile — which is what makes the
//! result deterministic rather than merely reproducible.
use vstd::prelude::*;

verus! {

/// Tile dimensions in device pixels.
///
/// A "wide tile" is short and wide: stage 6 walks it as `height` scanlines of
/// `width` pixels.
#[derive(Debug, Clone, Copy, PartialEq, Eq, Hash, Structural)]
pub struct TileGeometry {
    pub width: u16,
    pub height: u16,
}

/// The default tile width: 256 pixels.
pub const DEFAULT_TILE_WIDTH: u16 = 256;

/// The default tile height: 4 scanlines, which aligns with 128-bit lanes.
pub const DEFAULT_TILE_HEIGHT: u16 = 4;

impl TileGeometry {
    /// Both dimensions clamped to at least 1, so a zero cannot divide.
    pub fn new(width: u16, height: u16) -> (geometry: TileGeometry)
        ensures
            geometry.width == (if width == 0 { 1 } else { width }),
            geometry.height == (if height == 0 { 1 } else { height }),
    {
        TileGeometry {
            width: if width == 0 { 1 } else { width },
            height: if height == 0 { 1 } else { height },
        }
    }
}

impl Default for TileGeometry {
    /// The starting point: 256 wide, 4 tall. Tile geometry is a parameter
    /// rather than a constant so benchmarking can move it.
    fn default() -> (geometry: TileGeometry)
        ensures
            geometry.width == DEFAULT_TILE_WIDTH,
            geometry.height == DEFAULT_TILE_HEIGHT,
    {
        TileGeometry { width: DEFAULT_TILE_WIDTH, height: DEFAULT_TILE_HEIGHT }
    }
}

/// The number of bands of `size` that cover `extent`, rounding up.
pub open spec fn ceil_div(extent: int, size: int) -> int {
    if extent % size == 0 { extent / size } else { extent / size + 1 }
}

/// The render target's pixel extent.
#[derive(Debug, Clone, Copy, PartialEq, Eq, Hash, Default, Structural)]
pub struct SurfaceSize {
    pub width: u32,
    pub height: u32,
}

impl SurfaceSize {
    pub fn new(width: u32, height: u32) -> (surface: SurfaceSize)
        ensures
            surface.width == width,
            surface.height == height,
    {
        SurfaceSize { width, height }
    }

    /// How many tiles across and down cover this surface.
    pub fn tile_grid(&self, geometry: TileGeometry) -> (grid: (u32, u32))
        requires
            geometry.width > 0,
            geometry.height > 0,
        ensures
            grid.0 == ceil_div(self.width as int, geometry.width as int),
            grid.1 == ceil_div(self.height as int, geometry.height as int),
            grid.0 as int * (geometry.width as int) >= self.width as int,
            (grid.0 as int - 1) * (geometry.width as int) < self.width as int,
            grid.1 as int * (geometry.height as int) >= self.height as int,
            (grid.1 as int - 1) * (geometry.height as int) < self.height as int,
    {
        let w = geometry.width as u32;
        let h = geometry.height as u32;
        proof {
            if self.width % w != 0 {
                assert(w >= 2);
                assert(self.width as int / w as int <= self.width as int / 2) by (nonlinear_arith)
                    requires w >= 2;
            }
            if self.height % h != 0 {
                assert(h >= 2);
                assert(self.height as int / h as int <= self.height as int / 2) by (nonlinear_arith)
                    requires h >= 2;
            }
        }
        let columns = if self.width % w == 0 { self.width / w } else { self.width / w + 1 };
        let rows = if self.height % h == 0 { self.height / h } else { self.height / h + 1 };
        proof {
            vstd::arithmetic::div_mod::lemma_fundamental_div_mod(self.width as int, w as int);
            vstd::arithmetic::div_mod::lemma_fundamental_div_mod(self.height as int, h as int);
            assert((self.width as int / w as int + 1) * w as int == (self.width as int / w as int) * w as int + w as int) by (nonlinear_arith);
            assert((self.height as int / h as int + 1) * h as int == (self.height as int / h as int) * h as int + h as int) by (nonlinear_arith);
            assert((self.width as int / w as int - 1) * w as int == (self.width as int / w as int) * w as int - w as int) by (nonlinear_arith);
            assert((self.height as int / h as int - 1) * h as int == (self.height as int / h as int) * h as int - h as int) by (nonlinear_arith);
            assert(w as int * (self.width as int / w as int) == (self.width as int / w as int) * w as int) by (nonlinear_arith);
            assert(h as int * (self.height as int / h as int) == (self.height as int / h as int) * h as int) by (nonlinear_arith);
        }
        (columns, rows)
    }
}

/// One tile that at least one segment touches.
///
/// Tiles nothing touches have no entry at all — that is what "sparse" means
/// here.
#[derive(Debug, Clone, Copy, PartialEq, Eq, Structural)]
pub struct TileEntry {
    /// Tile column.
    pub x: u16,
    /// Tile row.
    pub y: u16,
    /// Start of this tile's run in the segment indices.
    pub offset: u32,
    /// Segments in the run.
    pub len: u32,
}

/// What binning did.
#[derive(Debug, Clone, Copy, PartialEq, Eq, Default, Structural)]
pub struct BinStats {
    /// Segments offered.
    pub segments_in: usize,
    /// Segments dropped as non-finite or entirely off-surface.
    pub segments_dropped: usize,
    /// Tile assignments made. The sum of every tile's `len`.
    pub assignments: usize,
    /// Tiles with at least one segment.
    pub tiles: usize,
}

/// The tile half of a packed `(tile, segment)` assignment.
pub open spec fn pair_tile(pair: u64) -> u32 {
    (pair >> 32u64) as u32
}

/// The segment half of a packed `(tile, segment)` assignment.
pub open spec fn pair_segment(pair: u64) -> u32 {
    pair as u32
}

/// An assignment of segment `segment` to tile `tile`, packed so that one
/// integer comparison orders assignments by tile, then by segment.
pub open spec fn pack_pair(tile: u32, segment: u32) -> u64 {
    ((tile as u64) << 32u64) | segment as u64
}

/// Packing then unpacking an assignment gives it back.
pub proof fn lemma_pair_round_trip(tile: u32, segment: u32)
    ensures
        pair_tile(pack_pair(tile, segment)) == tile,
        pair_segment(pack_pair(tile, segment)) == segment,
{
    assert(((((tile as u64) << 32u64) | segment as u64) >> 32u64) as u32 == tile) by (bit_vector);
    assert(((((tile as u64) << 32u64) | segment as u64)) as u32 == segment) by (bit_vector);
}

/// Packed assignments order by tile first: a smaller tile always sorts
/// first, whatever the segments.
pub proof fn lemma_pair_order(a: u64, b: u64)
    requires
        a <= b,
    ensures
        pair_tile(a) <= pair_tile(b),
{
    assert(a <= b ==> ((a >> 32u64) as u32) <= ((b >> 32u64) as u32)) by (bit_vector);
}

/// Ascending order on packed assignments.
pub open spec fn ascending(a: u64, b: u64) -> bool {
    a <= b
}

/// The runs are consecutive, non-empty, and cover every assignment.
#[verifier::opaque]
pub open spec fn runs_tile_pairs(pairs: Seq<u64>, tiles: Seq<TileEntry>) -> bool {
    &&& (tiles.len() == 0 <==> pairs.len() == 0)
    &&& tiles.len() > 0 ==> tiles[0].offset == 0
    &&& tiles.len() > 0 ==> tiles.last().offset + tiles.last().len == pairs.len()
    &&& forall|t: int| 1 <= t < tiles.len() ==> #[trigger] tiles[t].offset == tiles[t - 1].offset + tiles[t - 1].len
    &&& forall|t: int| 0 <= t < tiles.len() ==> #[trigger] tiles[t].len > 0
}

/// Each run names its tile by column and row of a grid `columns` across.
#[verifier::opaque]
pub open spec fn runs_named(pairs: Seq<u64>, tiles: Seq<TileEntry>, columns: u32) -> bool {
    forall|t: int| 0 <= t < tiles.len() ==> {
        &&& #[trigger] tiles[t].x == (pair_tile(pairs[tiles[t].offset as int]) % columns) as u16
        &&& tiles[t].y == (pair_tile(pairs[tiles[t].offset as int]) / columns) as u16
    }
}

/// Every assignment in a run is to the run's tile.
#[verifier::opaque]
pub open spec fn runs_uniform(pairs: Seq<u64>, tiles: Seq<TileEntry>) -> bool {
    forall|t: int, m: int| 0 <= t < tiles.len() && tiles[t].offset <= m < tiles[t].offset + tiles[t].len
        ==> pair_tile(#[trigger] pairs[m]) == pair_tile(pairs[#[trigger] tiles[t].offset as int])
}

/// A run ends where the tile changes.
#[verifier::opaque]
pub open spec fn runs_change(pairs: Seq<u64>, tiles: Seq<TileEntry>) -> bool {
    forall|t: int| 1 <= t < tiles.len() ==> pair_tile(pairs[#[trigger] tiles[t].offset as int])
        != pair_tile(pairs[tiles[t - 1].offset as int])
}

/// `tiles` are the runs of equal tile in `pairs`: consecutive, non-empty,
/// covering every assignment, each naming its tile by column and row of a grid
/// `columns` tiles across, and each ending where the tile changes.
pub open spec fn runs_of(pairs: Seq<u64>, tiles: Seq<TileEntry>, columns: u32) -> bool {
    &&& runs_tile_pairs(pairs, tiles)
    &&& runs_named(pairs, tiles, columns)
    &&& runs_uniform(pairs, tiles)
    &&& runs_change(pairs, tiles)
}

proof fn lemma_runs_offsets(pairs: Seq<u64>, tiles: Seq<TileEntry>)
    requires
        runs_tile_pairs(pairs, tiles),
    ensures
        forall|t: int| 0 <= t < tiles.len() ==> #[trigger] tiles[t].offset + tiles[t].len <= pairs.len(),
{
    reveal(runs_tile_pairs);
    assert forall|t: int| 0 <= t < tiles.len() implies #[trigger] tiles[t].offset + tiles[t].len <= pairs.len() by {
        lemma_runs_offset_bound(pairs, tiles, t);
    }
}

proof fn lemma_runs_offset_bound(pairs: Seq<u64>, tiles: Seq<TileEntry>, t: int)
    requires
        runs_tile_pairs(pairs, tiles),
        0 <= t < tiles.len(),
    ensures
        tiles[t].offset + tiles[t].len <= pairs.len(),
    decreases tiles.len() - t,
{
    reveal(runs_tile_pairs);
    if t < tiles.len() - 1 {
        lemma_runs_offset_bound(pairs, tiles, t + 1);
        assert(tiles[t + 1].offset == tiles[t].offset + tiles[t].len);
    }
}

#[verifier::spinoff_prover]
#[verifier::rlimit(30)]
proof fn lemma_runs_push_new(pairs: Seq<u64>, tiles: Seq<TileEntry>, pair: u64, columns: u32)
    requires
        runs_of(pairs, tiles, columns),
        columns > 0,
        pairs.len() < u32::MAX,
        pairs.len() > 0 ==> pair_tile(pairs.last()) != pair_tile(pair),
    ensures
        runs_of(
            pairs.push(pair),
            tiles.push(TileEntry {
                x: (pair_tile(pair) % columns) as u16,
                y: (pair_tile(pair) / columns) as u16,
                offset: pairs.len() as u32,
                len: 1,
            }),
            columns,
        ),
{
    let next = pairs.push(pair);
    let entry = TileEntry {
        x: (pair_tile(pair) % columns) as u16,
        y: (pair_tile(pair) / columns) as u16,
        offset: pairs.len() as u32,
        len: 1,
    };
    let after = tiles.push(entry);
    reveal(runs_tile_pairs);
    lemma_runs_offsets(pairs, tiles);
    assert(runs_tile_pairs(next, after)) by {
        reveal(runs_tile_pairs);
        assert forall|t: int| 1 <= t < after.len() implies #[trigger] after[t].offset == after[t - 1].offset + after[t - 1].len by {
            if t < tiles.len() {
                assert(after[t] == tiles[t]);
                assert(after[t - 1] == tiles[t - 1]);
            }
        }
        assert forall|t: int| 0 <= t < after.len() implies #[trigger] after[t].len > 0 by {
            if t < tiles.len() { assert(after[t] == tiles[t]); }
        }
    }
    assert(runs_named(next, after, columns)) by {
        reveal(runs_named);
        assert forall|t: int| 0 <= t < after.len() implies {
            &&& #[trigger] after[t].x == (pair_tile(next[after[t].offset as int]) % columns) as u16
            &&& after[t].y == (pair_tile(next[after[t].offset as int]) / columns) as u16
        } by {
            if t < tiles.len() {
                assert(after[t] == tiles[t]);
                assert(next[tiles[t].offset as int] == pairs[tiles[t].offset as int]);
            }
        }
    }
    assert(runs_uniform(next, after)) by {
        reveal(runs_uniform);
        assert forall|t: int, m: int| 0 <= t < after.len() && after[t].offset <= m < after[t].offset + after[t].len
            implies pair_tile(#[trigger] next[m]) == pair_tile(next[#[trigger] after[t].offset as int]) by {
            if t < tiles.len() {
                assert(after[t] == tiles[t]);
                assert(next[m] == pairs[m]);
                assert(next[tiles[t].offset as int] == pairs[tiles[t].offset as int]);
                assert(pair_tile(pairs[m]) == pair_tile(pairs[tiles[t].offset as int]));
            }
        }
    }
    assert(runs_change(next, after)) by {
        reveal(runs_change);
        assert forall|t: int| 1 <= t < after.len() implies pair_tile(next[#[trigger] after[t].offset as int])
            != pair_tile(next[after[t - 1].offset as int]) by {
            if t < tiles.len() {
                assert(after[t] == tiles[t]);
                assert(after[t - 1] == tiles[t - 1]);
                assert(next[tiles[t].offset as int] == pairs[tiles[t].offset as int]);
                assert(next[tiles[t - 1].offset as int] == pairs[tiles[t - 1].offset as int]);
            } else {
                let last = tiles.len() - 1;
                assert(after[t - 1] == tiles[last]);
                reveal(runs_tile_pairs);
                reveal(runs_uniform);
                assert(pair_tile(pairs[pairs.len() - 1]) == pair_tile(pairs[tiles[last].offset as int]));
                assert(next[tiles[last].offset as int] == pairs[tiles[last].offset as int]);
            }
        }
    }
}

proof fn lemma_runs_extend(pairs: Seq<u64>, tiles: Seq<TileEntry>, pair: u64, columns: u32)
    requires
        runs_of(pairs, tiles, columns),
        pairs.len() > 0,
        pairs.len() < u32::MAX,
        pair_tile(pairs.last()) == pair_tile(pair),
    ensures
        tiles.len() > 0,
        tiles.last().len < pairs.len() + 1,
        runs_of(
            pairs.push(pair),
            tiles.update(tiles.len() - 1, TileEntry { len: (tiles.last().len + 1) as u32, ..tiles.last() }),
            columns,
        ),
{
    reveal(runs_tile_pairs);
    let next = pairs.push(pair);
    let last = tiles.len() - 1;
    let after = tiles.update(last, TileEntry { len: (tiles.last().len + 1) as u32, ..tiles.last() });
    lemma_runs_offsets(pairs, tiles);
    assert(runs_tile_pairs(next, after)) by {
        assert forall|t: int| 1 <= t < after.len() implies #[trigger] after[t].offset == after[t - 1].offset + after[t - 1].len by {
            assert(tiles[t].offset == tiles[t - 1].offset + tiles[t - 1].len);
        }
        assert forall|t: int| 0 <= t < after.len() implies #[trigger] after[t].len > 0 by {
            assert(tiles[t].len > 0);
        }
    }
    assert(runs_named(next, after, columns)) by {
        reveal(runs_named);
        assert forall|t: int| 0 <= t < after.len() implies {
            &&& #[trigger] after[t].x == (pair_tile(next[after[t].offset as int]) % columns) as u16
            &&& after[t].y == (pair_tile(next[after[t].offset as int]) / columns) as u16
        } by {
            assert(after[t].offset == tiles[t].offset);
            assert(next[tiles[t].offset as int] == pairs[tiles[t].offset as int]);
            assert(tiles[t].x == (pair_tile(pairs[tiles[t].offset as int]) % columns) as u16);
        }
    }
    assert(runs_uniform(next, after)) by {
        reveal(runs_uniform);
        assert forall|t: int, m: int| 0 <= t < after.len() && after[t].offset <= m < after[t].offset + after[t].len
            implies pair_tile(#[trigger] next[m]) == pair_tile(next[#[trigger] after[t].offset as int]) by {
            assert(next[tiles[t].offset as int] == pairs[tiles[t].offset as int]);
            if t == last && m == pairs.len() {
                assert(pair_tile(pairs[pairs.len() - 1]) == pair_tile(pairs[tiles[last].offset as int]));
            } else {
                assert(next[m] == pairs[m]);
                assert(pair_tile(pairs[m]) == pair_tile(pairs[tiles[t].offset as int]));
            }
        }
    }
    assert(runs_change(next, after)) by {
        reveal(runs_change);
        assert forall|t: int| 1 <= t < after.len() implies pair_tile(next[#[trigger] after[t].offset as int])
            != pair_tile(next[after[t - 1].offset as int]) by {
            assert(next[tiles[t].offset as int] == pairs[tiles[t].offset as int]);
            assert(next[tiles[t - 1].offset as int] == pairs[tiles[t - 1].offset as int]);
            assert(pair_tile(pairs[tiles[t].offset as int]) != pair_tile(pairs[tiles[t - 1].offset as int]));
        }
    }
}

/// Within a run every assignment has the run's tile, and the run ends at the
/// last assignment or where the tile changes.
proof fn lemma_run_bounds(pairs: Seq<u64>, tiles: Seq<TileEntry>, columns: u32, t: int)
    requires
        runs_of(pairs, tiles, columns),
        0 <= t < tiles.len(),
    ensures
        tiles[t].offset + tiles[t].len <= pairs.len(),
        tiles[t].len > 0,
        forall|m: int| tiles[t].offset <= m < tiles[t].offset + tiles[t].len
            ==> pair_tile(#[trigger] pairs[m]) == pair_tile(pairs[tiles[t].offset as int]),
        t + 1 < tiles.len() <==> tiles[t].offset + tiles[t].len < pairs.len(),
        t + 1 < tiles.len() ==> tiles[t + 1].offset == tiles[t].offset + tiles[t].len,
        t + 1 < tiles.len() ==> pair_tile(pairs[tiles[t].offset + tiles[t].len]) != pair_tile(pairs[tiles[t].offset as int]),
{
    reveal(runs_tile_pairs);
    reveal(runs_uniform);
    reveal(runs_change);
    lemma_runs_offsets(pairs, tiles);
    if t + 1 < tiles.len() {
        lemma_runs_offsets(pairs, tiles);
        assert(tiles[t + 1].offset + tiles[t + 1].len <= pairs.len());
        assert(tiles[t + 1].len > 0);
    }
}

proof fn lemma_runs_agree_upto(
    pairs: Seq<u64>,
    first: Seq<TileEntry>,
    second: Seq<TileEntry>,
    columns: u32,
    n: int,
)
    requires
        runs_of(pairs, first, columns),
        runs_of(pairs, second, columns),
        0 <= n <= first.len(),
        n <= second.len(),
    ensures
        forall|t: int| 0 <= t < n ==> #[trigger] first[t] == second[t],
    decreases n,
{
    if n > 0 {
        lemma_runs_agree_upto(pairs, first, second, columns, n - 1);
        let t = n - 1;
        reveal(runs_tile_pairs);
        reveal(runs_named);
        assert(first[t].offset == second[t].offset) by {
            if t > 0 {
                assert(first[t - 1] == second[t - 1]);
            }
        }
        let o = first[t].offset as int;
        lemma_run_bounds(pairs, first, columns, t);
        lemma_run_bounds(pairs, second, columns, t);
        if first[t].len < second[t].len {
            let m = o + first[t].len;
            assert(pair_tile(pairs[m]) == pair_tile(pairs[o]));
            assert(false);
        }
        if second[t].len < first[t].len {
            let m = o + second[t].len;
            assert(pair_tile(pairs[m]) == pair_tile(pairs[o]));
            assert(false);
        }
        assert(first[t].len == second[t].len);
        assert(first[t].x == second[t].x);
        assert(first[t].y == second[t].y);
        assert(first[t] == second[t]);
    }
}

/// Grouping depends only on which assignments were recorded, not on the
/// order they arrived in: two sorted arrangements of the same assignments
/// are the same sequence, and they split into the same tiles.
pub proof fn lemma_grouping_is_deterministic(
    pairs: Seq<u64>,
    tiles: Seq<TileEntry>,
    other_pairs: Seq<u64>,
    other_tiles: Seq<TileEntry>,
    columns: u32,
)
    requires
        vstd::relations::sorted_by(pairs, |a: u64, b: u64| ascending(a, b)),
        vstd::relations::sorted_by(other_pairs, |a: u64, b: u64| ascending(a, b)),
        pairs.to_multiset() == other_pairs.to_multiset(),
        runs_of(pairs, tiles, columns),
        runs_of(other_pairs, other_tiles, columns),
    ensures
        pairs == other_pairs,
        tiles == other_tiles,
{
    let leq = |a: u64, b: u64| ascending(a, b);
    assert(vstd::relations::total_ordering(leq)) by {
        reveal(vstd::relations::total_ordering);
    }
    vstd::seq_lib::lemma_sorted_unique(pairs, other_pairs, leq);
    assert(pairs == other_pairs);
    let n = if tiles.len() < other_tiles.len() { tiles.len() as int } else { other_tiles.len() as int };
    lemma_runs_agree_upto(pairs, tiles, other_tiles, columns, n);
    reveal(runs_tile_pairs);
    if tiles.len() != other_tiles.len() {
        if tiles.len() < other_tiles.len() {
            if n == 0 {
                assert(pairs.len() == 0);
                lemma_run_bounds(pairs, other_tiles, columns, 0);
            } else {
                lemma_run_bounds(pairs, tiles, columns, n - 1);
                lemma_run_bounds(pairs, other_tiles, columns, n - 1);
                assert(tiles[n - 1] == other_tiles[n - 1]);
            }
        } else {
            if n == 0 {
                assert(pairs.len() == 0);
                lemma_run_bounds(pairs, tiles, columns, 0);
            } else {
                lemma_run_bounds(pairs, tiles, columns, n - 1);
                lemma_run_bounds(pairs, other_tiles, columns, n - 1);
                assert(tiles[n - 1] == other_tiles[n - 1]);
            }
        }
    }
    assert(tiles =~= other_tiles);
}

/// Grouped tiles come out in row-major order: each tile's index is strictly
/// greater than the one before it, so no tile appears twice.
pub proof fn lemma_tiles_row_major(pairs: Seq<u64>, tiles: Seq<TileEntry>, columns: u32, a: int, b: int)
    requires
        vstd::relations::sorted_by(pairs, |x: u64, y: u64| ascending(x, y)),
        runs_of(pairs, tiles, columns),
        0 <= a < b < tiles.len(),
    ensures
        pair_tile(pairs[tiles[a].offset as int]) < pair_tile(pairs[tiles[b].offset as int]),
    decreases b - a,
{
    lemma_run_bounds(pairs, tiles, columns, b - 1);
    let prev = tiles[b - 1].offset as int;
    let last = prev + tiles[b - 1].len - 1;
    let leq = |x: u64, y: u64| ascending(x, y);
    if prev < last {
        assert(leq(pairs[prev], pairs[last]));
    }
    assert(leq(pairs[last], pairs[tiles[b].offset as int]));
    lemma_pair_order(pairs[last], pairs[tiles[b].offset as int]);
    if a < b - 1 {
        lemma_tiles_row_major(pairs, tiles, columns, a, b - 1);
    }
}

/// When no assignment was recorded twice, the segments of a grouped tile come
/// in strictly increasing order, so a tile names each of its segments once.
pub proof fn lemma_tile_segments_increasing(
    pairs: Seq<u64>,
    tiles: Seq<TileEntry>,
    columns: u32,
    t: int,
    i: int,
    j: int,
)
    requires
        vstd::relations::sorted_by(pairs, |x: u64, y: u64| ascending(x, y)),
        pairs.no_duplicates(),
        runs_of(pairs, tiles, columns),
        0 <= t < tiles.len(),
        tiles[t].offset <= i < j < tiles[t].offset + tiles[t].len,
    ensures
        pair_segment(pairs[i]) < pair_segment(pairs[j]),
{
    lemma_run_bounds(pairs, tiles, columns, t);
    let leq = |x: u64, y: u64| ascending(x, y);
    assert(leq(pairs[i], pairs[j]));
    assert(pairs[i] != pairs[j]);
    let a = pairs[i];
    let b = pairs[j];
    assert(pair_tile(a) == pair_tile(b));
    assert(a < b && (a >> 32u64) as u32 == (b >> 32u64) as u32 ==> (a as u32) < (b as u32)) by (bit_vector);
}

/// Sorts assignments ascending with std's `slice::sort_unstable`.
///
/// Trusted, not proved: as std documents for that function, the slice
/// afterwards holds the same assignments (the same multiset) in ascending
/// order.
#[verifier::external_body]
fn sort_pairs(pairs: &mut Vec<u64>)
    ensures
        final(pairs)@.to_multiset() == old(pairs)@.to_multiset(),
        vstd::relations::sorted_by(final(pairs)@, |a: u64, b: u64| ascending(a, b)),
{
    pairs.sort_unstable();
}

/// Sorts segment indices ascending with std's `slice::sort_unstable`.
///
/// Trusted, not proved: as std documents for that function, the slice
/// afterwards holds the same indices (the same multiset) in ascending order.
#[verifier::external_body]
fn sort_indices(indices: &mut Vec<u32>)
    ensures
        final(indices)@.to_multiset() == old(indices)@.to_multiset(),
        vstd::relations::sorted_by(final(indices)@, |a: u32, b: u32| a <= b),
{
    indices.sort_unstable();
}

/// Reusable binning workspace.
///
/// Held across frames so a steady-state bin allocates nothing.
#[derive(Debug)]
pub struct Binner {
    /// `(tile, segment)` packed into one `u64`, so the sort is a single
    /// integer comparison and the result is totally ordered.
    pairs: Vec<u64>,
    tiles: Vec<TileEntry>,
    indices: Vec<u32>,
    stats: BinStats,
}

/// The abstract content of a [`Binner`].
pub struct BinnerView {
    pub pairs: Seq<u64>,
    pub tiles: Seq<TileEntry>,
    pub indices: Seq<u32>,
    pub stats: BinStats,
}

impl View for Binner {
    type V = BinnerView;

    closed spec fn view(&self) -> BinnerView {
        BinnerView { pairs: self.pairs@, tiles: self.tiles@, indices: self.indices@, stats: self.stats }
    }
}

impl Binner {
    pub fn new() -> (binner: Binner)
        ensures
            binner@.pairs.len() == 0,
            binner@.tiles.len() == 0,
            binner@.indices.len() == 0,
            binner@.stats == (BinStats { segments_in: 0, segments_dropped: 0, assignments: 0, tiles: 0 }),
    {
        Binner {
            pairs: Vec::new(),
            tiles: Vec::new(),
            indices: Vec::new(),
            stats: BinStats { segments_in: 0, segments_dropped: 0, assignments: 0, tiles: 0 },
        }
    }

    /// Bytes currently held by the assignments, tiles and indices.
    pub fn memory_usage(&self) -> (bytes: usize)
        requires
            self@.pairs.len() * vstd::layout::size_of::<u64>() + self@.tiles.len() * vstd::layout::size_of::<TileEntry>()
                + self@.indices.len() * vstd::layout::size_of::<u32>() <= usize::MAX,
        ensures
            bytes == self@.pairs.len() * vstd::layout::size_of::<u64>() + self@.tiles.len() * vstd::layout::size_of::<TileEntry>()
                + self@.indices.len() * vstd::layout::size_of::<u32>(),
    {
        let pairs = self.pairs.len() * core::mem::size_of::<u64>();
        let tiles = self.tiles.len() * core::mem::size_of::<TileEntry>();
        let indices = self.indices.len() * core::mem::size_of::<u32>();
        pairs + tiles + indices
    }

    /// Starts a pass over `segments` offered segments, forgetting the last.
    pub fn begin(&mut self, segments: usize)
        ensures
            final(self)@.pairs.len() == 0,
            final(self)@.tiles.len() == 0,
            final(self)@.indices.len() == 0,
            final(self)@.stats == (BinStats { segments_in: segments, segments_dropped: 0, assignments: 0, tiles: 0 }),
    {
        self.pairs.clear();
        self.tiles.clear();
        self.indices.clear();
        self.stats = BinStats { segments_in: segments, segments_dropped: 0, assignments: 0, tiles: 0 };
    }

    /// Records that segment `segment` touches tile `tile` (row-major index).
    pub fn assign(&mut self, tile: u32, segment: u32)
        ensures
            final(self)@ == (BinnerView { pairs: old(self)@.pairs.push(pack_pair(tile, segment)), ..old(self)@ }),
    {
        self.pairs.push(((tile as u64) << 32) | segment as u64);
    }

    /// Records that a segment was dropped: non-finite, or entirely off the
    /// surface.
    pub fn drop_segment(&mut self)
        requires
            old(self)@.stats.segments_dropped < usize::MAX,
        ensures
            final(self)@ == (BinnerView {
                stats: BinStats { segments_dropped: (old(self)@.stats.segments_dropped + 1) as usize, ..old(self)@.stats },
                ..old(self)@
            }),
    {
        self.stats.segments_dropped = self.stats.segments_dropped + 1;
    }

    /// Records that every offered segment was dropped: the surface has no
    /// tiles to put them in.
    pub fn drop_all(&mut self)
        ensures
            final(self)@ == (BinnerView {
                stats: BinStats { segments_dropped: old(self)@.stats.segments_in, ..old(self)@.stats },
                ..old(self)@
            }),
    {
        self.stats.segments_dropped = self.stats.segments_in;
    }

    /// Orders the recorded assignments and groups them into one run of
    /// segment indices per occupied tile, tiles in row-major order, for a grid
    /// `columns` tiles across.
    ///
    /// The assignments are totally ordered, so the result depends only on
    /// which assignments were recorded, not on the order they came in.
    pub fn group(&mut self, columns: u32)
        requires
            columns > 0,
            old(self)@.pairs.len() <= u32::MAX,
            old(self)@.tiles.len() == 0,
            old(self)@.indices.len() == 0,
        ensures
            final(self)@.pairs.to_multiset() == old(self)@.pairs.to_multiset(),
            vstd::relations::sorted_by(final(self)@.pairs, |a: u64, b: u64| ascending(a, b)),
            final(self)@.indices == final(self)@.pairs.map_values(|p: u64| pair_segment(p)),
            runs_of(final(self)@.pairs, final(self)@.tiles, columns),
            final(self)@.stats == (BinStats {
                assignments: final(self)@.indices.len() as usize,
                tiles: final(self)@.tiles.len() as usize,
                ..old(self)@.stats
            }),
    {
        sort_pairs(&mut self.pairs);
        proof {
            broadcast use vstd::seq_lib::group_to_multiset_ensures;
        }
        let ghost sorted = self.pairs@;
        let ghost stats = self.stats;
        let count = self.pairs.len();
        assert(count == old(self)@.pairs.to_multiset().len());
        let mut current: Option<u32> = None;
        let mut m: usize = 0;
        proof {
            reveal(runs_tile_pairs);
            reveal(runs_named);
            reveal(runs_uniform);
            reveal(runs_change);
        }
        while m < count
            invariant
                self.pairs@ == sorted,
                self.stats == stats,
                count == sorted.len(),
                count <= u32::MAX,
                columns > 0,
                m <= count,
                self.indices@ == sorted.subrange(0, m as int).map_values(|p: u64| pair_segment(p)),
                runs_of(sorted.subrange(0, m as int), self.tiles@, columns),
                current == (if m == 0 { None::<u32> } else { Some(pair_tile(sorted[m - 1])) }),
            decreases count - m,
        {
            let pair = self.pairs[m];
            let tile = (pair >> 32) as u32;
            let segment = pair as u32;
            let ghost prefix = sorted.subrange(0, m as int);
            assert(sorted.subrange(0, m as int + 1) =~= prefix.push(pair));
            let fresh = match current {
                Some(t) => t != tile,
                None => true,
            };
            if fresh {
                proof { lemma_runs_push_new(prefix, self.tiles@, pair, columns); }
                self.tiles.push(TileEntry {
                    x: (tile % columns) as u16,
                    y: (tile / columns) as u16,
                    offset: m as u32,
                    len: 1,
                });
                current = Some(tile);
            } else {
                proof { lemma_runs_extend(prefix, self.tiles@, pair, columns); }
                let last = self.tiles.len() - 1;
                let entry = self.tiles[last];
                self.tiles.set(last, TileEntry { len: entry.len + 1, ..entry });
            }
            self.indices.push(segment);
            assert(self.indices@ =~= prefix.push(pair).map_values(|p: u64| pair_segment(p)));
            m = m + 1;
        }
        assert(sorted.subrange(0, count as int) =~= sorted);
        self.stats.assignments = self.indices.len();
        self.stats.tiles = self.tiles.len();
    }

    /// Occupied tiles, in row-major order.
    pub fn tiles(&self) -> (tiles: &[TileEntry])
        ensures
            tiles@ == self@.tiles,
    {
        self.tiles.as_slice()
    }

    /// Segment indices, grouped into per-tile runs.
    pub fn indices(&self) -> (indices: &[u32])
        ensures
            indices@ == self@.indices,
    {
        self.indices.as_slice()
    }

    pub fn stats(&self) -> (stats: BinStats)
        ensures
            stats == self@.stats,
    {
        self.stats
    }
}

impl Binner {
    /// The bins of the last pass, over the `segments` that were offered to
    /// it, for a grid `columns` by `rows` tiles of `geometry` on `surface`.
    pub fn finish<'a, S>(
        &'a self,
        segments: &'a [S],
        geometry: TileGeometry,
        surface: SurfaceSize,
        columns: u32,
        rows: u32,
    ) -> (bins: TileBins<'a, S>)
        ensures
            bins.geometry_spec() == geometry,
            bins.surface_spec() == surface,
            bins.grid_spec() == (columns, rows),
            bins.segments_spec() == segments@,
            bins.tiles_spec() == self@.tiles,
            bins.indices_spec() == self@.indices,
            bins.stats_spec() == self@.stats,
    {
        TileBins {
            geometry,
            surface,
            columns,
            rows,
            segments,
            tiles: self.tiles.as_slice(),
            indices: self.indices.as_slice(),
            stats: self.stats,
        }
    }
}

/// Per-tile segment lists.
#[derive(Debug, Clone, Copy)]
pub struct TileBins<'a, S> {
    geometry: TileGeometry,
    surface: SurfaceSize,
    columns: u32,
    rows: u32,
    segments: &'a [S],
    tiles: &'a [TileEntry],
    indices: &'a [u32],
    stats: BinStats,
}

/// The segment indices of a tile: its run of `indices`, or none when the run
/// lies past the end.
pub open spec fn tile_run(indices: Seq<u32>, tile: TileEntry) -> Seq<u32> {
    if tile.offset + tile.len <= indices.len() {
        indices.subrange(tile.offset as int, tile.offset + tile.len)
    } else {
        Seq::empty()
    }
}

proof fn lemma_push_contains(s: Seq<u32>, x: u32, v: u32)
    ensures
        s.push(x).contains(v) <==> (s.contains(v) || v == x),
{
    if s.contains(v) {
        let i = choose|i: int| 0 <= i < s.len() && s[i] == v;
        assert(s.push(x)[i] == v);
    }
    if v == x {
        assert(s.push(x)[s.len() as int] == x);
    }
    if s.push(x).contains(v) {
        let i = choose|i: int| 0 <= i < s.push(x).len() && s.push(x)[i] == v;
        if i < s.len() {
            assert(s[i] == v);
        }
    }
}

/// The segment indices of the tiles `run`, tile after tile.
pub open spec fn gathered(indices: Seq<u32>, run: Seq<TileEntry>) -> Seq<u32>
    decreases run.len(),
{
    if run.len() == 0 {
        Seq::empty()
    } else {
        gathered(indices, run.drop_last()) + tile_run(indices, run.last())
    }
}

impl<'a, S> TileBins<'a, S> {
    pub closed spec fn geometry_spec(&self) -> TileGeometry {
        self.geometry
    }

    pub closed spec fn surface_spec(&self) -> SurfaceSize {
        self.surface
    }

    pub closed spec fn grid_spec(&self) -> (u32, u32) {
        (self.columns, self.rows)
    }

    pub closed spec fn segments_spec(&self) -> Seq<S> {
        self.segments@
    }

    pub closed spec fn tiles_spec(&self) -> Seq<TileEntry> {
        self.tiles@
    }

    pub closed spec fn indices_spec(&self) -> Seq<u32> {
        self.indices@
    }

    pub closed spec fn stats_spec(&self) -> BinStats {
        self.stats
    }

    pub fn geometry(&self) -> (geometry: TileGeometry)
        ensures
            geometry == self.geometry_spec(),
    {
        self.geometry
    }

    pub fn surface(&self) -> (surface: SurfaceSize)
        ensures
            surface == self.surface_spec(),
    {
        self.surface
    }

    /// Tiles across and down. This is the grid's size; only the tiles in
    /// [`TileBins::tiles`] have segments.
    pub fn grid(&self) -> (grid: (u32, u32))
        ensures
            grid == self.grid_spec(),
    {
        (self.columns, self.rows)
    }

    /// Every segment offered to the binner, indexed by [`TileBins::indices`].
    pub fn segments(&self) -> (segments: &'a [S])
        ensures
            segments@ == self.segments_spec(),
    {
        self.segments
    }

    /// Occupied tiles, ordered by row then column.
    pub fn tiles(&self) -> (tiles: &'a [TileEntry])
        ensures
            tiles@ == self.tiles_spec(),
    {
        self.tiles
    }

    /// Segment indices, grouped into per-tile runs.
    pub fn indices(&self) -> (indices: &'a [u32])
        ensures
            indices@ == self.indices_spec(),
    {
        self.indices
    }

    pub fn stats(&self) -> (stats: BinStats)
        ensures
            stats == self.stats_spec(),
    {
        self.stats
    }

    /// The segment indices belonging to a tile.
    pub fn tile_indices(&self, tile: &TileEntry) -> (indices: &'a [u32])
        ensures
            indices@ == tile_run(self.indices_spec(), *tile),
    {
        let start = tile.offset as usize;
        let total = self.indices.len();
        if start <= total && (tile.len as usize) <= total - start {
            &self.indices[start..start + tile.len as usize]
        } else {
            let none: &[u32] = &[];
            assert(none@ =~= Seq::<u32>::empty());
            none
        }
    }

    /// Every segment index that some tile of `run` names, once each and in
    /// ascending order, into `out`: the segments a run of adjacent tiles
    /// accumulates. A segment crossing two tiles of the run is named by both
    /// but comes out once, and the fixed order fixes the order of the sums.
    pub fn run_indices(&self, run: &[TileEntry], out: &mut Vec<u32>)
        ensures
            forall|i: int, j: int| 0 <= i < j < final(out)@.len() ==> final(out)@[i] < final(out)@[j],
            forall|v: u32| final(out)@.contains(v) <==> gathered(self.indices_spec(), run@).contains(v),
    {
        broadcast use vstd::seq_lib::group_to_multiset_ensures;
        out.clear();
        let mut k: usize = 0;
        while k < run.len()
            invariant
                k <= run@.len(),
                out@ == gathered(self.indices_spec(), run@.take(k as int)),
            decreases run@.len() - k,
        {
            let tile = run[k];
            out.extend_from_slice(self.tile_indices(&tile));
            assert(run@.take(k as int + 1).drop_last() =~= run@.take(k as int));
            assert(run@.take(k as int + 1).last() == tile);
            k = k + 1;
        }
        assert(run@.take(run@.len() as int) =~= run@);
        let ghost all = out@;
        sort_indices(out);
        let ghost sorted = out@;
        assert forall|v: u32| sorted.contains(v) <==> all.contains(v) by {
            assert(sorted.to_multiset().count(v) == all.to_multiset().count(v));
        }
        let len = out.len();
        if len == 0 {
            return;
        }
        let mut kept: usize = 1;
        let mut read: usize = 1;
        while read < len
            invariant
                len == sorted.len(),
                out@.len() == len,
                1 <= kept <= read <= len,
                vstd::relations::sorted_by(sorted, |a: u32, b: u32| a <= b),
                forall|i: int| read <= i < len ==> #[trigger] out@[i] == sorted[i],
                forall|i: int, j: int| 0 <= i < j < kept ==> out@[i] < out@[j],
                out@[kept - 1] == sorted[read - 1],
                forall|v: u32| out@.take(kept as int).contains(v) <==> sorted.take(read as int).contains(v),
            decreases len - read,
        {
            let value = out[read];
            let ghost before = out@;
            let ghost prefix = sorted.take(read as int);
            assert(sorted.take(read as int + 1) =~= prefix.push(value));
            if value != out[kept - 1] {
                assert((|a: u32, b: u32| a <= b)(sorted[read - 1], sorted[read as int]));
                out.set(kept, value);
                assert(out@.take(kept as int + 1) =~= before.take(kept as int).push(value));
                proof {
                    assert forall|v: u32| out@.take(kept as int + 1).contains(v) <==> prefix.push(value).contains(v) by {
                        lemma_push_contains(before.take(kept as int), value, v);
                        lemma_push_contains(prefix, value, v);
                    }
                }
                kept = kept + 1;
            } else {
                assert(out@.take(kept as int) =~= before.take(kept as int));
                proof {
                    assert(before.take(kept as int)[kept - 1] == value);
                    assert(before.take(kept as int).contains(value));
                    assert forall|v: u32| out@.take(kept as int).contains(v) <==> prefix.push(value).contains(v) by {
                        lemma_push_contains(prefix, value, v);
                    }
                }
            }
            read = read + 1;
        }
        out.truncate(kept);
        assert(sorted.take(len as int) =~= sorted);
        assert(out@ =~= out@.take(kept as int));
    }

    /// The segments belonging to a tile, in accumulation order. An index that
    /// names no segment is skipped.
    pub fn tile_segments(&self, tile: &TileEntry) -> (segments: Vec<S>)
        where S: Copy,
        ensures
            segments@ == tile_run(self.indices_spec(), *tile)
                .filter(|i: u32| (i as int) < self.segments_spec().len())
                .map_values(|i: u32| self.segments_spec()[i as int]),
    {
        let run = self.tile_indices(tile);
        let ghost valid = |i: u32| (i as int) < self.segments@.len();
        let ghost name = |i: u32| self.segments@[i as int];
        let mut segments: Vec<S> = Vec::new();
        let mut k: usize = 0;
        while k < run.len()
            invariant
                k <= run@.len(),
                run@ == tile_run(self.indices@, *tile),
                valid == (|i: u32| (i as int) < self.segments@.len()),
                name == (|i: u32| self.segments@[i as int]),
                segments@ == run@.subrange(0, k as int).filter(valid).map_values(name),
            decreases run@.len() - k,
        {
            let index = run[k] as usize;
            let ghost head = run@.subrange(0, k as int);
            let ghost next = run@.subrange(0, k as int + 1);
            proof {
                reveal_with_fuel(Seq::filter, 1);
                assert(next.drop_last() =~= head);
                assert(next.last() == run@[k as int]);
            }
            if index < self.segments.len() {
                segments.push(self.segments[index]);
                proof {
                    assert(next.filter(valid) == head.filter(valid).push(run@[k as int]));
                    assert(head.filter(valid).push(run@[k as int]).map_values(name)
                        =~= head.filter(valid).map_values(name).push(name(run@[k as int])));
                }
            } else {
                assert(next.filter(valid) == head.filter(valid));
            }
            k = k + 1;
        }
        assert(run@.subrange(0, run@.len() as int) =~= run@);
        segments
    }

    /// The device-space origin of a tile, in pixels.
    pub fn tile_origin(&self, tile: &TileEntry) -> (origin: (u32, u32))
        ensures
            origin.0 == tile.x as int * self.geometry_spec().width as int,
            origin.1 == tile.y as int * self.geometry_spec().height as int,
    {
        proof {
            assert(tile.x as int * self.geometry.width as int <= 65535 * 65535) by (nonlinear_arith)
                requires tile.x <= 65535, self.geometry.width <= 65535;
            assert(tile.y as int * self.geometry.height as int <= 65535 * 65535) by (nonlinear_arith)
                requires tile.y <= 65535, self.geometry.height <= 65535;
        }
        (tile.x as u32 * self.geometry.width as u32, tile.y as u32 * self.geometry.height as u32)
    }
}

} // verus!
