//! What strips say about coverage, and why the striper's strips say exactly
//! what it was fed.
//!
//! A band's coverage is read back from its strips: at each pixel the last
//! strip of the band that covers it speaks, and a pixel no strip covers has
//! no coverage. While a band is being built, the striper also holds columns
//! back — a run of identical columns and a per-pixel span — and those speak
//! for their pixels first. The laws here show that every step of the striper
//! records the column it is given at its position and changes nothing else,
//! so the finished strips decode to exactly the columns that were taken.
use vstd::prelude::*;
use vstd::arithmetic::div_mod::lemma_fundamental_div_mod_converse;

use crate::strips::{
    MIN_UNIFORM_RUN, Strip, StripKind, StriperView, any_coverage, repeat_column, strip_extent, transposed,
};

verus! {

/// Whether strip `s` covers column `x` of band `band`.
pub open spec fn strip_covers(s: Strip, band: u32, x: int) -> bool {
    s.band == band && s.x <= x < s.x + s.width
}

/// The coverage strip `s` records at column `x`, row `row`: zero past the
/// strip's rows.
pub open spec fn strip_coverage(alphas: Seq<u8>, s: Strip, x: int, row: int) -> u8 {
    if 0 <= row < s.rows {
        match s.kind {
            StripKind::Uniform { offset } => alphas[offset + row],
            StripKind::Alpha { offset } => alphas[offset + row * s.width + (x - s.x)],
        }
    } else {
        0
    }
}

/// The coverage `strips` record at column `x`, row `row` of band `band`: the
/// last strip that covers the pixel speaks, and a pixel no strip covers has
/// none.
pub open spec fn decoded(strips: Seq<Strip>, alphas: Seq<u8>, band: u32, x: int, row: int) -> u8
    decreases strips.len(),
{
    if strips.len() == 0 {
        0
    } else if strip_covers(strips.last(), band, x) {
        strip_coverage(alphas, strips.last(), x, row)
    } else {
        decoded(strips.drop_last(), alphas, band, x, row)
    }
}

/// Every strip's alpha bytes lie within `alphas`.
pub open spec fn within(strips: Seq<Strip>, alphas: Seq<u8>) -> bool {
    forall|i: int| 0 <= i < strips.len() ==>
        #[trigger] strip_extent(strips[i]).0 + strip_extent(strips[i]).1 <= alphas.len()
}

impl StriperView {
    /// The band has scanlines, and a run being counted is one column of
    /// them.
    pub open spec fn shaped(self) -> bool {
        &&& self.rows > 0
        &&& self.group_count > 0 ==> self.group.len() == self.rows
    }

    /// Every strip's alpha bytes lie within the alpha bytes emitted.
    pub open spec fn exact(self) -> bool {
        within(self.strips, self.alphas)
    }

    /// The shape the striper is in between calls: a held-back per-pixel span
    /// is whole columns and is directly followed by a run being counted,
    /// which is always there when the span is; and the strips of the current
    /// band have its height.
    pub open spec fn steady(self) -> bool {
        &&& self.alpha_active ==> self.group_count > 0
        &&& self.alpha_active ==> self.columns.len() as int % (self.rows as int) == 0
        &&& self.alpha_active ==> self.group_x == self.alpha_x + self.columns.len() as int / (self.rows as int)
        &&& forall|i: int| 0 <= i < self.strips.len() && #[trigger] self.strips[i].band == self.band
            ==> self.strips[i].rows == self.rows
    }

    /// Room for the offsets of what is held back: the alpha bytes, once
    /// everything held is committed, still fit the 32-bit offsets strips
    /// record.
    pub open spec fn room(self) -> bool {
        self.alphas.len() + self.columns.len() + MIN_UNIFORM_RUN * self.rows <= u32::MAX
    }

    /// Coverage at column `x`, row `row` of the current band, not counting
    /// the run being counted: the held per-pixel span speaks for its
    /// columns, the emitted strips for the rest.
    pub open spec fn held(self, x: int, row: int) -> u8 {
        if self.alpha_active && self.alpha_x <= x < self.alpha_x + self.columns.len() as int / (self.rows as int) {
            self.columns[(x - self.alpha_x) * self.rows + row]
        } else {
            decoded(self.strips, self.alphas, self.band, x, row)
        }
    }

    /// Coverage at column `x`, row `row` of the current band, as far as the
    /// striper has been told: the run being counted speaks for its columns,
    /// then what is held.
    pub open spec fn content(self, x: int, row: int) -> u8 {
        if self.group_count > 0 && self.group_x <= x < self.group_x + self.group_count {
            self.group[row]
        } else {
            self.held(x, row)
        }
    }
}

/// Appending alpha bytes changes nothing that strips within the old bytes
/// record.
proof fn lemma_decoded_extend(strips: Seq<Strip>, alphas: Seq<u8>, more: Seq<u8>, band: u32, x: int, row: int)
    requires
        within(strips, alphas),
    ensures
        decoded(strips, alphas + more, band, x, row) == decoded(strips, alphas, band, x, row),
        within(strips, alphas + more),
    decreases strips.len(),
{
    if strips.len() > 0 {
        let last = strips.last();
        assert(strip_extent(strips[strips.len() - 1]).0 + strip_extent(strips[strips.len() - 1]).1 <= alphas.len());
        assert(within(strips.drop_last(), alphas)) by {
            assert forall|i: int| 0 <= i < strips.drop_last().len() implies
                #[trigger] strip_extent(strips.drop_last()[i]).0 + strip_extent(strips.drop_last()[i]).1 <= alphas.len() by {
                assert(strips.drop_last()[i] == strips[i]);
            }
        }
        lemma_decoded_extend(strips.drop_last(), alphas, more, band, x, row);
        if strip_covers(last, band, x) && 0 <= row < last.rows {
            if let StripKind::Alpha { offset } = last.kind {
                let dx = x - last.x;
                assert(row * last.width + dx < last.rows * last.width) by (nonlinear_arith)
                    requires 0 <= row < last.rows, 0 <= dx < last.width;
                assert(0 <= row * last.width) by (nonlinear_arith) requires 0 <= row;
            }
        }
    }
    assert forall|i: int| 0 <= i < strips.len() implies
        #[trigger] strip_extent(strips[i]).0 + strip_extent(strips[i]).1 <= (alphas + more).len() by {
    }
}

/// A strip that does not cover a pixel does not change what is decoded
/// there.
proof fn lemma_decoded_push_other(strips: Seq<Strip>, alphas: Seq<u8>, s: Strip, band: u32, x: int, row: int)
    requires
        !strip_covers(s, band, x),
    ensures
        decoded(strips.push(s), alphas, band, x, row) == decoded(strips, alphas, band, x, row),
{
    assert(strips.push(s).drop_last() =~= strips);
}

/// The last strip covering a pixel is what is decoded there.
proof fn lemma_decoded_push_cover(strips: Seq<Strip>, alphas: Seq<u8>, s: Strip, band: u32, x: int, row: int)
    requires
        strip_covers(s, band, x),
    ensures
        decoded(strips.push(s), alphas, band, x, row) == strip_coverage(alphas, s, x, row),
{
}

/// Column `k` of `count` repeats of a column reads back that column.
proof fn lemma_repeat_column_at(column: Seq<u8>, count: nat, k: int, row: int)
    requires
        0 <= k < count,
        0 <= row < column.len(),
    ensures
        repeat_column(column, count).len() == count * column.len(),
        repeat_column(column, count)[k * column.len() + row] == column[row],
    decreases count,
{
    lemma_repeat_column_len(column, (count - 1) as nat);
    let before = repeat_column(column, (count - 1) as nat);
    assert(repeat_column(column, count) == before + column);
    assert(count * column.len() == (count - 1) * column.len() + column.len()) by (nonlinear_arith);
    if k < count - 1 {
        lemma_repeat_column_at(column, (count - 1) as nat, k, row);
        assert(k * column.len() + row < (count - 1) * column.len()) by (nonlinear_arith)
            requires k < count - 1, 0 <= row < column.len();
    } else {
        assert(k * column.len() == (count - 1) * column.len());
    }
}

proof fn lemma_repeat_column_len(column: Seq<u8>, count: nat)
    ensures
        repeat_column(column, count).len() == count * column.len(),
    decreases count,
{
    if count > 0 {
        lemma_repeat_column_len(column, (count - 1) as nat);
        assert(repeat_column(column, count) == repeat_column(column, (count - 1) as nat) + column);
        assert(count * column.len() == (count - 1) * column.len() + column.len()) by (nonlinear_arith);
    } else {
        assert(count * column.len() == 0) by (nonlinear_arith) requires count == 0;
    }
}

/// Committing the per-pixel span keeps every pixel's coverage, here and in
/// every other band.
proof fn lemma_flushed_keeps(v: StriperView, x: int, row: int, other: u32)
    requires
        v.rows > 0,
        v.exact(),
        v.alphas.len() + v.columns.len() <= u32::MAX,
        0 <= row < v.rows,
        other != v.band,
    ensures
        v.flushed().exact(),
        v.flushed().held(x, row) == v.held(x, row),
        decoded(v.flushed().strips, v.flushed().alphas, other, x, row) == decoded(v.strips, v.alphas, other, x, row),
        v.flushed().strips.len() >= v.strips.len(),
        forall|i: int| v.strips.len() <= i < v.flushed().strips.len() ==> #[trigger] v.flushed().strips[i].band == v.band
            && v.flushed().strips[i].rows == v.rows,
        forall|i: int| 0 <= i < v.strips.len() ==> #[trigger] v.flushed().strips[i] == v.strips[i],
        v.flushed().alphas.len() + v.flushed().columns.len() <= v.alphas.len() + v.columns.len(),
        v.flushed().rows == v.rows,
        v.flushed().band == v.band,
        v.flushed().group == v.group,
        v.flushed().group_x == v.group_x,
        v.flushed().group_count == v.group_count,
        !v.flushed().alpha_active,
        v.alpha_active ==> v.flushed().columns.len() == 0 || v.flushed().columns.len() == v.columns.len(),
{
    let f = v.flushed();
    let rows = v.rows as int;
    let width = v.columns.len() as int / rows;
    if v.alpha_active && width > 0 {
        let t = transposed(v.columns, rows, width);
        let strip = Strip {
            x: v.alpha_x,
            band: v.band,
            width: width as u32,
            rows: v.rows,
            kind: StripKind::Alpha { offset: v.alphas.len() as u32 },
        };
        vstd::arithmetic::div_mod::lemma_fundamental_div_mod(v.columns.len() as int, rows);
        assert(rows * width <= v.columns.len()) by (nonlinear_arith)
            requires width == v.columns.len() as int / rows, rows > 0,
                v.columns.len() == rows * (v.columns.len() as int / rows) + v.columns.len() as int % rows,
                v.columns.len() as int % rows >= 0;
        assert(width <= rows * width) by (nonlinear_arith) requires rows >= 1, width >= 0;
        assert(strip.width == width);
        assert(t.len() == rows * width);
        lemma_decoded_extend(v.strips, v.alphas, t, v.band, x, row);
        lemma_decoded_extend(v.strips, v.alphas, t, other, x, row);
        lemma_decoded_push_other(v.strips, v.alphas + t, strip, other, x, row);
        if v.alpha_x <= x < v.alpha_x + width {
            let dx = x - v.alpha_x;
            lemma_decoded_push_cover(v.strips, v.alphas + t, strip, v.band, x, row);
            assert(0 <= row * width + dx < rows * width) by (nonlinear_arith)
                requires 0 <= row < rows, 0 <= dx < width;
            lemma_fundamental_div_mod_converse(row * width + dx, width, row, dx);
            assert(t[row * width + dx] == v.columns[dx * rows + row]);
            assert((v.alphas + t)[v.alphas.len() + row * width + dx] == t[row * width + dx]);
        } else {
            lemma_decoded_push_other(v.strips, v.alphas + t, strip, v.band, x, row);
        }
        assert forall|i: int| 0 <= i < f.strips.len() implies
            #[trigger] strip_extent(f.strips[i]).0 + strip_extent(f.strips[i]).1 <= f.alphas.len() by {
            if i < v.strips.len() {
                assert(f.strips[i] == v.strips[i]);
                assert(strip_extent(v.strips[i]).0 + strip_extent(v.strips[i]).1 <= v.alphas.len());
            } else {
                assert(f.strips[i] == strip);
                assert(strip.rows as int * strip.width as int == rows * width);
            }
        }
    }
}

/// Committing the run being counted keeps every pixel's coverage: what the
/// run spoke for is now held or emitted, and nothing else moves.
proof fn lemma_group_closed_keeps(v: StriperView, x: int, row: int, other: u32)
    requires
        v.shaped(),
        v.exact(),
        v.room(),
        v.alpha_active ==> v.columns.len() as int % (v.rows as int) == 0,
        v.alpha_active && v.group_count > 0 ==> v.group_x == v.alpha_x + v.columns.len() as int / (v.rows as int),
        0 <= row < v.rows,
        other != v.band,
    ensures
        v.group_closed().exact(),
        v.group_closed().held(x, row) == v.content(x, row),
        v.group_closed().group_count == 0,
        decoded(v.group_closed().strips, v.group_closed().alphas, other, x, row) == decoded(v.strips, v.alphas, other, x, row),
        v.group_closed().alpha_active ==> v.group_closed().columns.len() as int % (v.rows as int) == 0,
        v.group_closed().alpha_active && v.group_count > 0 ==> v.group_closed().alpha_x
            + v.group_closed().columns.len() as int / (v.rows as int) == v.group_x + v.group_count,
        v.group_closed().alpha_active ==> v.group_count > 0 || v.alpha_active,
        v.group_closed().alphas.len() + v.group_closed().columns.len() <= v.alphas.len() + v.columns.len() + MIN_UNIFORM_RUN * v.rows,
        v.group_closed().strips.len() >= v.strips.len(),
        forall|i: int| v.strips.len() <= i < v.group_closed().strips.len() ==> #[trigger] v.group_closed().strips[i].band == v.band
            && v.group_closed().strips[i].rows == v.rows,
        forall|i: int| 0 <= i < v.strips.len() ==> #[trigger] v.group_closed().strips[i] == v.strips[i],
        v.group_closed().band == v.band,
        v.group_closed().rows == v.rows,
{
    let g = v.group_closed();
    let rows = v.rows as int;
    let count = v.group_count as int;
    if v.group_count == 0 {
        return;
    }
    if v.group_count >= MIN_UNIFORM_RUN {
        let f = v.flushed();
        lemma_flushed_keeps(v, x, row, other);
        let strip = Strip {
            x: v.group_x,
            band: v.band,
            width: v.group_count,
            rows: v.rows,
            kind: StripKind::Uniform { offset: f.alphas.len() as u32 },
        };
        lemma_decoded_extend(f.strips, f.alphas, v.group, v.band, x, row);
        lemma_decoded_extend(f.strips, f.alphas, v.group, other, x, row);
        lemma_decoded_push_other(f.strips, f.alphas + v.group, strip, other, x, row);
        if v.group_x <= x < v.group_x + count {
            lemma_decoded_push_cover(f.strips, f.alphas + v.group, strip, v.band, x, row);
            assert((f.alphas + v.group)[f.alphas.len() + row] == v.group[row]);
        } else {
            lemma_decoded_push_other(f.strips, f.alphas + v.group, strip, v.band, x, row);
        }
        assert forall|i: int| 0 <= i < g.strips.len() implies
            #[trigger] strip_extent(g.strips[i]).0 + strip_extent(g.strips[i]).1 <= g.alphas.len() by {
            if i < f.strips.len() {
                assert(g.strips[i] == f.strips[i]);
                assert(strip_extent(f.strips[i]).0 + strip_extent(f.strips[i]).1 <= f.alphas.len());
            } else {
                assert(g.strips[i] == strip);
            }
        }
        assert(MIN_UNIFORM_RUN * v.rows >= v.rows);
        return;
    }
    lemma_repeat_column_len(v.group, v.group_count as nat);
    assert(v.group.len() == rows);
    let added = repeat_column(v.group, v.group_count as nat);
    assert(added.len() == count * rows);
    assert(count * rows <= MIN_UNIFORM_RUN * rows) by (nonlinear_arith)
        requires count < MIN_UNIFORM_RUN, rows > 0;
    assert((count * rows) % rows == 0 && (count * rows) / rows == count) by {
        lemma_fundamental_div_mod_converse(count * rows, rows, count, 0);
    }
    if v.alpha_active {
        let len = v.columns.len() as int;
        let w = len / rows;
        vstd::arithmetic::div_mod::lemma_fundamental_div_mod(len, rows);
        assert(len == w * rows) by (nonlinear_arith) requires len == rows * w + 0, len % rows == 0;
        assert(len + count * rows == (w + count) * rows) by (nonlinear_arith) requires len == w * rows;
        lemma_fundamental_div_mod_converse(len + count * rows, rows, w + count, 0);
        assert(g.columns.len() as int / rows == w + count);
        if v.alpha_x <= x < v.alpha_x + w + count && 0 <= row < rows {
            let k = x - v.alpha_x;
            if k < w {
                assert(k * rows + row < len) by (nonlinear_arith) requires k + 1 <= w, 0 <= row < rows, len == w * rows, k >= 0, rows > 0;
                assert(0 <= k * rows) by (nonlinear_arith) requires k >= 0, rows > 0;
                assert(g.columns[k * rows + row] == v.columns[k * rows + row]);
            } else {
                let j = k - w;
                assert(k * rows + row == len + (j * rows + row)) by (nonlinear_arith)
                    requires j == k - w, len == w * rows;
                lemma_repeat_column_at(v.group, v.group_count as nat, j, row);
                assert(0 <= j * rows + row < count * rows) by (nonlinear_arith)
                    requires 0 <= j < count, 0 <= row < rows;
                assert(g.columns == v.columns + added);
                assert(g.columns[len + (j * rows + row)] == added[j * rows + row]);
            }
        }
    } else {
        assert(g.columns == added);
        if v.group_x <= x < v.group_x + count && 0 <= row < rows {
            let k = x - v.group_x;
            lemma_repeat_column_at(v.group, v.group_count as nat, k, row);
        }
    }
}

/// Taking a column records exactly that column at its position: afterwards
/// the striper holds the column's coverage at `x`, what it held everywhere
/// else is unchanged, and no other band is touched.
pub proof fn lemma_take_column_records(v: StriperView, x: u32, column: Seq<u8>, at: int, row: int, other: u32)
    requires
        v.shaped(),
        v.exact(),
        v.steady(),
        v.room(),
        column.len() == v.rows,
        x < u32::MAX,
        v.group_count > 0 ==> x == v.group_x + v.group_count,
        0 <= row < v.rows,
        other != v.band,
    ensures
        v.taken(x, column).exact(),
        v.taken(x, column).steady(),
        v.taken(x, column).content(at, row) == (if at == x { column[row] } else { v.content(at, row) }),
        decoded(v.taken(x, column).strips, v.taken(x, column).alphas, other, at, row)
            == decoded(v.strips, v.alphas, other, at, row),
{
    let t = v.taken(x, column);
    if v.group_count > 0 && column == v.group {
        return;
    }
    let g = v.group_closed();
    lemma_group_closed_keeps(v, at, row, other);
    assert forall|i: int| 0 <= i < t.strips.len() && #[trigger] t.strips[i].band == t.band
        implies t.strips[i].rows == t.rows by {
        if i < v.strips.len() {
            assert(t.strips[i] == v.strips[i]);
        }
    }
    if g.alpha_active {
        assert(v.group_count > 0 || v.alpha_active);
        assert(v.group_count > 0);
        assert(g.alpha_x + g.columns.len() as int / (v.rows as int) == x);
    }
}

/// Ending the spans being built commits everything held back and keeps every
/// pixel's coverage; nothing is held afterwards.
pub proof fn lemma_end_span_keeps(v: StriperView, at: int, row: int, other: u32)
    requires
        v.shaped(),
        v.exact(),
        v.steady(),
        v.room(),
        0 <= row < v.rows,
        other != v.band,
    ensures
        v.ended().exact(),
        v.ended().steady(),
        v.ended().group_count == 0,
        !v.ended().alpha_active,
        v.ended().content(at, row) == v.content(at, row),
        decoded(v.ended().strips, v.ended().alphas, other, at, row) == decoded(v.strips, v.alphas, other, at, row),
{
    let g = v.group_closed();
    lemma_group_closed_keeps(v, at, row, other);
    lemma_flushed_keeps(g, at, row, other);
    let e = v.ended();
    assert forall|i: int| 0 <= i < e.strips.len() && #[trigger] e.strips[i].band == e.band
        implies e.strips[i].rows == e.rows by {
        if i < g.strips.len() {
            assert(e.strips[i] == g.strips[i]);
            if i < v.strips.len() {
                assert(g.strips[i] == v.strips[i]);
            }
        }
    }
}

/// A constant span records its column over its columns when it has any
/// coverage, and leaves every other pixel, and every other band, as it was.
pub proof fn lemma_gap_records(
    v: StriperView,
    x0: u32,
    x1: u32,
    column: Seq<u8>,
    at: int,
    row: int,
    other: u32,
)
    requires
        v.shaped(),
        v.exact(),
        v.steady(),
        v.group_count == 0,
        v.alphas.len() <= u32::MAX,
        column.len() == v.rows,
        0 <= row < v.rows,
        other != v.band,
    ensures
        v.gapped(x0, x1, column).exact(),
        v.gapped(x0, x1, column).steady(),
        v.gapped(x0, x1, column).content(at, row)
            == (if x0 <= at < x1 && any_coverage(column) { column[row] } else { v.content(at, row) }),
        decoded(v.gapped(x0, x1, column).strips, v.gapped(x0, x1, column).alphas, other, at, row)
            == decoded(v.strips, v.alphas, other, at, row),
{
    if x0 < x1 && any_coverage(column) {
        let g = v.gapped(x0, x1, column);
        let strip = Strip {
            x: x0,
            band: v.band,
            width: (x1 - x0) as u32,
            rows: v.rows,
            kind: StripKind::Uniform { offset: v.alphas.len() as u32 },
        };
        lemma_decoded_extend(v.strips, v.alphas, column, v.band, at, row);
        lemma_decoded_extend(v.strips, v.alphas, column, other, at, row);
        lemma_decoded_push_other(v.strips, v.alphas + column, strip, other, at, row);
        if x0 <= at < x1 {
            lemma_decoded_push_cover(v.strips, v.alphas + column, strip, v.band, at, row);
            assert((v.alphas + column)[v.alphas.len() + row] == column[row]);
        } else {
            lemma_decoded_push_other(v.strips, v.alphas + column, strip, v.band, at, row);
        }
        assert forall|i: int| 0 <= i < g.strips.len() implies
            #[trigger] strip_extent(g.strips[i]).0 + strip_extent(g.strips[i]).1 <= g.alphas.len() by {
            if i < v.strips.len() {
                assert(g.strips[i] == v.strips[i]);
                assert(strip_extent(v.strips[i]).0 + strip_extent(v.strips[i]).1 <= v.alphas.len());
            }
        }
        assert forall|i: int| 0 <= i < g.strips.len() && #[trigger] g.strips[i].band == g.band
            implies g.strips[i].rows == g.rows by {
            if i < v.strips.len() {
                assert(g.strips[i] == v.strips[i]);
            }
        }
    }
}

/// Nothing is decoded in a band no strip belongs to.
proof fn lemma_decoded_absent(strips: Seq<Strip>, alphas: Seq<u8>, band: u32, x: int, row: int)
    requires
        forall|i: int| 0 <= i < strips.len() ==> #[trigger] strips[i].band != band,
    ensures
        decoded(strips, alphas, band, x, row) == 0,
    decreases strips.len(),
{
    if strips.len() > 0 {
        assert(strips.last() == strips[strips.len() - 1]);
        assert forall|i: int| 0 <= i < strips.drop_last().len() implies #[trigger] strips.drop_last()[i].band != band by {
            assert(strips.drop_last()[i] == strips[i]);
        }
        lemma_decoded_absent(strips.drop_last(), alphas, band, x, row);
    }
}

/// A band after every band emitted so far starts empty: until columns are
/// taken, none of its pixels has coverage.
pub proof fn lemma_new_band_is_empty(v: StriperView, band: u32, rows: u16, at: int, row: int)
    requires
        forall|i: int| 0 <= i < v.strips.len() ==> #[trigger] v.strips[i].band < band,
    ensures
        (StriperView { band, rows, group_count: 0, alpha_active: false, ..v }).steady(),
        (StriperView { band, rows, group_count: 0, alpha_active: false, ..v }).content(at, row) == 0,
{
    assert forall|i: int| 0 <= i < v.strips.len() implies #[trigger] v.strips[i].band != band by {
        assert(v.strips[i].band < band);
    }
    lemma_decoded_absent(v.strips, v.alphas, band, at, row);
}

/// The striper after the columns `columns` of the current band are fed to
/// it left to right from column `x0`: a column with coverage is taken, and a
/// column without any ends the spans being built.
pub open spec fn fed(v: StriperView, x0: u32, columns: Seq<Seq<u8>>) -> StriperView
    decreases columns.len(),
{
    if columns.len() == 0 {
        v
    } else {
        let before = fed(v, x0, columns.drop_last());
        if any_coverage(columns.last()) {
            before.taken((x0 + columns.len() - 1) as u32, columns.last())
        } else {
            before.ended()
        }
    }
}

/// What feeding `columns` from `x0` leaves at column `at`, row `row`: the
/// fed column where it has coverage, and what was there before elsewhere.
pub open spec fn fed_coverage(v: StriperView, x0: u32, columns: Seq<Seq<u8>>, at: int, row: int) -> u8 {
    if x0 <= at < x0 + columns.len() && any_coverage(columns[at - x0]) {
        columns[at - x0][row]
    } else {
        v.content(at, row)
    }
}

proof fn lemma_fed_holds(v: StriperView, x0: u32, columns: Seq<Seq<u8>>, at: int, row: int)
    requires
        v.shaped(),
        v.exact(),
        v.steady(),
        v.group_count == 0,
        forall|i: int| 0 <= i < columns.len() ==> (#[trigger] columns[i]).len() == v.rows,
        x0 + columns.len() < u32::MAX,
        forall|k: int| 0 <= k <= columns.len() ==> #[trigger] fed(v, x0, columns.take(k)).room(),
        0 <= row < v.rows,
    ensures
        fed(v, x0, columns).shaped(),
        fed(v, x0, columns).exact(),
        fed(v, x0, columns).steady(),
        fed(v, x0, columns).rows == v.rows,
        fed(v, x0, columns).band == v.band,
        fed(v, x0, columns).group_count > 0 ==> fed(v, x0, columns).group_x + fed(v, x0, columns).group_count
            == x0 + columns.len(),
        fed(v, x0, columns).content(at, row) == fed_coverage(v, x0, columns, at, row),
    decreases columns.len(),
{
    let n = columns.len();
    if n == 0 {
        return;
    }
    let prefix = columns.drop_last();
    assert forall|k: int| 0 <= k <= prefix.len() implies #[trigger] fed(v, x0, prefix.take(k)).room() by {
        assert(prefix.take(k) =~= columns.take(k));
        assert(fed(v, x0, columns.take(k)).room());
    }
    assert forall|i: int| 0 <= i < prefix.len() implies (#[trigger] prefix[i]).len() == v.rows by {
        assert(prefix[i] == columns[i]);
    }
    lemma_fed_holds(v, x0, prefix, at, row);
    let w = fed(v, x0, prefix);
    assert(columns.take(n as int - 1) =~= prefix);
    assert(w.room()) by {
        assert(fed(v, x0, columns.take(n as int - 1)).room());
    }
    let last = columns.last();
    assert(last == columns[n - 1]);
    let x = (x0 + n - 1) as u32;
    let other: u32 = if v.band == 0 { 1 } else { 0 };
    if any_coverage(last) {
        lemma_take_column_records(w, x, last, at, row, other);
        let t = w.taken(x, last);
        if !(w.group_count > 0 && last == w.group) {
            lemma_group_closed_keeps(w, at, row, other);
        }
        if at != x {
            assert(fed_coverage(v, x0, columns, at, row) == fed_coverage(v, x0, prefix, at, row)) by {
                if x0 <= at < x0 + n - 1 {
                    assert(columns[at - x0] == prefix[at - x0]);
                }
            }
        }
    } else {
        lemma_end_span_keeps(w, at, row, other);
        let g = w.group_closed();
        lemma_group_closed_keeps(w, at, row, other);
        lemma_flushed_keeps(g, at, row, other);
        assert(fed_coverage(v, x0, columns, at, row) == fed_coverage(v, x0, prefix, at, row)) by {
            if x0 <= at < x0 + n - 1 {
                assert(columns[at - x0] == prefix[at - x0]);
            }
        }
    }
}

/// Feeding a band's columns left to right and then ending the spans leaves
/// strips that decode, at every fed column with coverage, to exactly that
/// column, and leave every other pixel as it was; nothing is held back.
pub proof fn lemma_feed_records(v: StriperView, x0: u32, columns: Seq<Seq<u8>>, at: int, row: int)
    requires
        v.shaped(),
        v.exact(),
        v.steady(),
        v.group_count == 0,
        forall|i: int| 0 <= i < columns.len() ==> (#[trigger] columns[i]).len() == v.rows,
        x0 + columns.len() < u32::MAX,
        forall|k: int| 0 <= k <= columns.len() ==> #[trigger] fed(v, x0, columns.take(k)).room(),
        0 <= row < v.rows,
    ensures
        fed(v, x0, columns).ended().group_count == 0,
        !fed(v, x0, columns).ended().alpha_active,
        decoded(fed(v, x0, columns).ended().strips, fed(v, x0, columns).ended().alphas, v.band, at, row)
            == fed_coverage(v, x0, columns, at, row),
{
    lemma_fed_holds(v, x0, columns, at, row);
    let w = fed(v, x0, columns);
    let other: u32 = if v.band == 0 { 1 } else { 0 };
    assert(w.room()) by {
        assert(columns.take(columns.len() as int) =~= columns);
    }
    lemma_end_span_keeps(w, at, row, other);
}

} // verus!
