//! The pixel target the fine stage writes into.
//!
//! The raster stages never own a surface: a consumer rendering into a window
//! surface or a shared buffer lends its bytes, and the fine stage only needs a
//! borrowed, strided, format-tagged view of them.
use vstd::prelude::*;
use vstd::arithmetic::div_mod::lemma_fundamental_div_mod_converse;

use crate::tables::{FineTables, alpha_byte, clamp_level};

verus! {

/// Byte layout of a target pixel.
///
/// The stored byte is the sRGB encoding of the premultiplied linear value, and
/// alpha is linear. That is the convention under which decode, blend and
/// encode are exact, so an untouched pixel comes back bit-identical.
#[derive(Debug, Clone, Copy, PartialEq, Eq, Hash, Structural)]
pub enum PixelFormat {
    Rgba8Premul,
    Bgra8Premul,
}

impl Default for PixelFormat {
    fn default() -> (format: PixelFormat)
        ensures
            format == PixelFormat::Rgba8Premul,
    {
        PixelFormat::Rgba8Premul
    }
}

/// The byte position of colour channel `channel` (0 red, 1 green, 2 blue,
/// 3 alpha) within a pixel of `format`. Alpha is always last.
pub open spec fn channel_slot(format: PixelFormat, channel: int) -> int {
    if channel == 3 {
        3
    } else {
        match format {
            PixelFormat::Rgba8Premul => channel,
            PixelFormat::Bgra8Premul => 2 - channel,
        }
    }
}

impl PixelFormat {
    /// Bytes per pixel.
    pub fn bytes_per_pixel(self) -> (n: usize)
        ensures
            n == 4,
    {
        4
    }

    /// Where the red, green and blue channels sit. Alpha is always last.
    pub fn channel_order(self) -> (order: [usize; 3])
        ensures
            forall|c: int| 0 <= c < 3 ==> #[trigger] order@[c] == channel_slot(self, c),
    {
        match self {
            PixelFormat::Rgba8Premul => [0, 1, 2],
            PixelFormat::Bgra8Premul => [2, 1, 0],
        }
    }
}

/// Why a byte slice cannot be a render target.
#[derive(Debug, Clone, Copy, PartialEq, Eq, Structural)]
#[non_exhaustive]
pub enum TargetError {
    /// The slice is shorter than `stride * height`.
    TooSmall { needed: usize, found: usize },
    /// The stride does not cover `width` pixels.
    StrideTooSmall { needed: usize, found: usize },
}

/// The abstract state of a target: its shape and the bytes it currently
/// holds.
pub struct TargetView {
    pub width: u32,
    pub height: u32,
    pub stride: usize,
    pub format: PixelFormat,
    pub bytes: Seq<u8>,
}

impl TargetView {
    /// Every row fits: the stride covers a row of pixels, and the bytes cover
    /// `height` strides.
    pub open spec fn fits(self) -> bool {
        &&& self.stride as int >= self.width as int * 4
        &&& self.stride as int * self.height as int <= self.bytes.len()
    }

    /// True when byte `i` lies inside one of the target's rows of pixels
    /// (rather than in the padding a stride leaves after a row, or past the
    /// last row).
    pub open spec fn in_pixels(self, i: int) -> bool {
        &&& 0 <= i < self.height as int * self.stride as int
        &&& i % (self.stride as int) < self.width as int * 4
    }

    /// The bytes after every pixel has been overwritten with `pixel`, padding
    /// left as it was.
    pub open spec fn cleared(self, pixel: Seq<u8>) -> Seq<u8> {
        Seq::new(self.bytes.len(), |i: int|
            if self.in_pixels(i) { pixel[(i % (self.stride as int)) % 4] } else { self.bytes[i] })
    }
}

/// A borrowed, strided pixel buffer.
#[derive(Debug)]
pub struct TargetMut<'a> {
    data: &'a mut [u8],
    width: u32,
    height: u32,
    stride: usize,
    format: PixelFormat,
}

impl<'a> View for TargetMut<'a> {
    type V = TargetView;

    closed spec fn view(&self) -> TargetView {
        TargetView {
            width: self.width,
            height: self.height,
            stride: self.stride,
            format: self.format,
            bytes: self.data@,
        }
    }
}

/// A pixel pattern repeated over `4 * count` bytes from `start`.
pub open spec fn with_pattern(bytes: Seq<u8>, start: int, count: int, pixel: Seq<u8>) -> Seq<u8> {
    Seq::new(bytes.len(), |i: int|
        if start <= i < start + 4 * count { pixel[(i - start) % 4] } else { bytes[i] })
}

/// Writes `pixel` into `count` consecutive pixels starting at byte `start`.
pub fn fill_pattern(data: &mut [u8], start: usize, count: usize, pixel: [u8; 4])
    requires
        start + 4 * count <= old(data)@.len(),
    ensures
        final(data)@ == with_pattern(old(data)@, start as int, count as int, pixel@),
{
    let len = data.len();
    let mut i: usize = 0;
    while i < count
        invariant
            len == data@.len(),
            start + 4 * count <= data@.len(),
            i <= count,
            data@ == with_pattern(old(data)@, start as int, i as int, pixel@),
        decreases count - i,
    {
        let at = start + 4 * i;
        data[at] = pixel[0];
        data[at + 1] = pixel[1];
        data[at + 2] = pixel[2];
        data[at + 3] = pixel[3];
        proof {
            assert forall|j: int| 0 <= j < data@.len() implies #[trigger] data@[j]
                == with_pattern(old(data)@, start as int, i + 1, pixel@)[j] by {
                if at <= j < at + 4 {
                    assert((j - start) % 4 == j - at) by {
                        lemma_fundamental_div_mod_converse(j - start, 4, i as int, j - at);
                    }
                }
            }
            assert(data@ =~= with_pattern(old(data)@, start as int, i + 1, pixel@));
        }
        i = i + 1;
    }
}

/// The bytes a colour is written as: its premultiplied linear levels
/// (red, green, blue, alpha) encoded through `tables`, colour channels placed
/// in `format`'s byte order.
pub open spec fn encoded_color(levels: Seq<u32>, format: PixelFormat, tables: FineTables) -> Seq<u8> {
    Seq::new(4, |slot: int|
        if slot == 3 {
            alpha_byte(levels[3] as int) as u8
        } else {
            let channel = channel_slot(format, slot);
            tables.encode_byte(clamp_level(levels[channel] as int))
        })
}

/// Encodes a premultiplied linear colour (levels red, green, blue, alpha, in
/// the sRGB space) into target bytes.
pub fn encode_color(levels: [u32; 4], format: PixelFormat, tables: &FineTables) -> (bytes: [u8; 4])
    ensures
        bytes@ == encoded_color(levels@, format, *tables),
{
    let mut bytes: [u8; 4] = [0u8; 4];
    let order = format.channel_order();
    let mut channel: usize = 0;
    while channel < 3
        invariant
            channel <= 3,
            forall|c: int| 0 <= c < 3 ==> #[trigger] order@[c] == channel_slot(format, c),
            forall|c: int| 0 <= c < channel ==> #[trigger] bytes@[channel_slot(format, c)]
                == tables.encode_byte(clamp_level(levels@[c] as int)),
        decreases 3 - channel,
    {
        let slot = order[channel];
        bytes[slot] = tables.encode(levels[channel]);
        channel = channel + 1;
    }
    bytes[3] = tables.encode_alpha(levels[3]);
    assert forall|slot: int| 0 <= slot < 4 implies #[trigger] bytes@[slot]
        == encoded_color(levels@, format, *tables)[slot] by {
        if slot < 3 {
            let c = channel_slot(format, slot);
            assert(channel_slot(format, c) == slot);
        }
    }
    assert(bytes@ =~= encoded_color(levels@, format, *tables));
    bytes
}

impl<'a> TargetMut<'a> {
    /// The buffer the target writes into. Its final value is the final value
    /// of the bytes that were lent.
    pub closed spec fn buffer(&self) -> &'a mut [u8] {
        self.data
    }

    /// Once a target is done with, the lent bytes end holding exactly what
    /// the target holds: everything written through it lands in the buffer
    /// or pixmap that lent it.
    pub proof fn lemma_resolved(&self)
        requires
            has_resolved(*self),
        ensures
            final(self.buffer())@ == self@.bytes,
    {
    }

    /// All the target's bytes, padding included, for the fine stage to write
    /// band by band. The target's shape is consistent with them: every row
    /// fits.
    pub fn rows_mut(&mut self) -> (rows: &mut [u8])
        requires
            old(self)@.fits(),
        ensures
            rows@ == old(self)@.bytes,
            final(self)@ == (TargetView { bytes: final(rows)@, ..old(self)@ }),
            final(final(self).buffer())@ == final(old(self).buffer())@,
    {
        &mut *self.data
    }

    /// A tightly packed target: rows are `width * 4` bytes apart.
    pub fn new(data: &'a mut [u8], width: u32, height: u32, format: PixelFormat) -> (target: Result<TargetMut<'a>, TargetError>)
        requires
            width as int * 4 <= usize::MAX,
        ensures
            target_result(target, old(data)@, width, height, width as int * 4, format),
            target matches Ok(t) ==> final(t.buffer())@ == final(data)@,
            target is Err ==> final(data)@ == old(data)@,
    {
        let stride = width as usize * format.bytes_per_pixel();
        TargetMut::with_stride(data, width, height, stride, format)
    }

    /// A target whose rows are `stride` bytes apart.
    pub fn with_stride(
        data: &'a mut [u8],
        width: u32,
        height: u32,
        stride: usize,
        format: PixelFormat,
    ) -> (target: Result<TargetMut<'a>, TargetError>)
        requires
            width as int * 4 <= usize::MAX,
        ensures
            target_result(target, old(data)@, width, height, stride as int, format),
            target matches Ok(t) ==> final(t.buffer())@ == final(data)@,
            target is Err ==> final(data)@ == old(data)@,
    {
        let row = width as usize * format.bytes_per_pixel();
        if stride < row {
            return Err(TargetError::StrideTooSmall { needed: row, found: stride });
        }
        let needed = match stride.checked_mul(height as usize) {
            Some(needed) => needed,
            None => {
                return Err(TargetError::TooSmall { needed: usize::MAX, found: data.len() });
            }
        };
        if data.len() < needed {
            return Err(TargetError::TooSmall { needed, found: data.len() });
        }
        Ok(TargetMut { data, width, height, stride, format })
    }

    pub fn width(&self) -> (width: u32)
        ensures
            width == self@.width,
    {
        self.width
    }

    pub fn height(&self) -> (height: u32)
        ensures
            height == self@.height,
    {
        self.height
    }

    pub fn format(&self) -> (format: PixelFormat)
        ensures
            format == self@.format,
    {
        self.format
    }

    pub fn stride(&self) -> (stride: usize)
        ensures
            stride == self@.stride,
    {
        self.stride
    }

    /// One row of pixels (`width * 4` bytes, without the padding a stride
    /// leaves after it), or `None` past the bottom edge.
    pub fn row_mut(&mut self, y: u32) -> (row: Option<&mut [u8]>)
        requires
            old(self)@.fits(),
        ensures
            ({
                let start = y as int * old(self)@.stride as int;
                let end = start + old(self)@.width as int * 4;
                match row {
                    None => y >= old(self)@.height && final(self)@ == old(self)@,
                    Some(r) => {
                        &&& y < old(self)@.height
                        &&& r@ == old(self)@.bytes.subrange(start, end)
                        &&& final(self)@.bytes =~= old(self)@.bytes.subrange(0, start) + final(r)@
                                + old(self)@.bytes.subrange(end, old(self)@.bytes.len() as int)
                        &&& final(self)@ == (TargetView { bytes: final(self)@.bytes, ..old(self)@ })
                    },
                }
            }),
            final(final(self).buffer())@ == final(old(self).buffer())@,
    {
        if y >= self.height {
            return None;
        }
        proof {
            assert(y as int * self.stride as int + self.stride as int <= self.stride as int * self.height as int) by (nonlinear_arith)
                requires y < self.height;
        }
        let total = self.data.len();
        let start = y as usize * self.stride;
        let len = self.width as usize * 4;
        let data: &mut [u8] = &mut *self.data;
        let (prefix, rest) = data.split_at_mut(start);
        let (row, suffix) = rest.split_at_mut(len);
        assert(has_resolved(prefix));
        assert(has_resolved(suffix));
        assert(prefix@ =~= old(self)@.bytes.subrange(0, start as int));
        assert(suffix@ =~= old(self)@.bytes.subrange(start + len, total as int));
        assert(row@ =~= old(self)@.bytes.subrange(start as int, start + len));
        Some(row)
    }

    /// Fills the whole target with one colour, given as premultiplied linear
    /// levels (red, green, blue, alpha) and encoded for the target's format.
    /// The padding a stride leaves after each row is not written.
    pub fn clear(&mut self, levels: [u32; 4], tables: &FineTables)
        requires
            old(self)@.fits(),
        ensures
            final(self)@ == (TargetView {
                bytes: old(self)@.cleared(encoded_color(levels@, old(self)@.format, *tables)),
                ..old(self)@
            }),
            final(final(self).buffer())@ == final(old(self).buffer())@,
    {
        let bytes = encode_color(levels, self.format, tables);
        let ghost start_view = self@;
        let ghost pixel = bytes@;
        let len = self.data.len();
        let stride = self.stride;
        let width = self.width;
        let height = self.height;
        let mut y: u32 = 0;
        while y < height
            invariant
                y <= height,
                self@.width == width,
                self@.height == height,
                self@.stride == stride,
                self@.format == start_view.format,
                stride as int >= width as int * 4,
                stride as int * height as int <= self@.bytes.len(),
                self@.bytes.len() == start_view.bytes.len(),
                len == self@.bytes.len(),
                pixel == bytes@,
                start_view.width == width,
                start_view.height == height,
                start_view.stride == stride,
                final(self.buffer())@ == final(old(self).buffer())@,
                forall|i: int| 0 <= i < self@.bytes.len() ==> #[trigger] self@.bytes[i] == (
                    if i < y as int * stride as int && start_view.in_pixels(i) {
                        pixel[(i % (stride as int)) % 4]
                    } else {
                        start_view.bytes[i]
                    }),
            decreases height - y,
        {
            proof {
                assert((y as int + 1) * stride as int == y as int * stride as int + stride as int) by (nonlinear_arith);
                assert(y as int * stride as int + stride as int <= stride as int * height as int) by (nonlinear_arith)
                    requires y < height;
            }
            let start = y as usize * stride;
            let ghost before = self@.bytes;
            fill_pattern(&mut *self.data, start, width as usize, bytes);
            proof {
                assert(self@.bytes == with_pattern(before, start as int, width as int, pixel));
                assert forall|i: int| 0 <= i < self@.bytes.len() implies #[trigger] self@.bytes[i] == (
                    if i < (y as int + 1) * stride as int && start_view.in_pixels(i) {
                        pixel[(i % (stride as int)) % 4]
                    } else {
                        start_view.bytes[i]
                    }) by {
                    if start as int <= i < start as int + stride as int {
                        lemma_fundamental_div_mod_converse(i, stride as int, y as int, i - start as int);
                        assert(i % (stride as int) == i - start as int);
                        assert(i < height as int * stride as int);
                        if (i - start as int) < (width as int) * 4 {
                            assert(start_view.in_pixels(i));
                            assert(self@.bytes[i] == pixel[(i - start as int) % 4]);
                        } else {
                            assert(!start_view.in_pixels(i));
                            assert(self@.bytes[i] == before[i]);
                        }
                    } else if i >= start as int + stride as int {
                        assert(!(i < (y as int + 1) * stride as int));
                        assert(self@.bytes[i] == before[i]);
                    } else {
                        assert(self@.bytes[i] == before[i]);
                    }
                }
            }
            y = y + 1;
        }
        proof {
            assert forall|i: int| 0 <= i < self@.bytes.len() implies #[trigger] self@.bytes[i]
                == start_view.cleared(pixel)[i] by {
                if start_view.in_pixels(i) {
                    assert(i < height as int * stride as int);
                    assert(height as int * stride as int == y as int * stride as int);
                }
            }
            assert(self@.bytes =~= start_view.cleared(pixel));
        }
    }
}

/// What a target constructor returns for a buffer of `bytes`, a row of
/// `width` pixels, `height` rows `stride` bytes apart: an error naming the
/// first check that fails, or the target.
pub open spec fn target_result<'a>(
    target: Result<TargetMut<'a>, TargetError>,
    bytes: Seq<u8>,
    width: u32,
    height: u32,
    stride: int,
    format: PixelFormat,
) -> bool {
    let row = width as int * 4;
    let needed = stride * height as int;
    if stride < row {
        target == Err::<TargetMut<'a>, TargetError>(
            TargetError::StrideTooSmall { needed: row as usize, found: stride as usize })
    } else if needed > usize::MAX {
        target == Err::<TargetMut<'a>, TargetError>(
            TargetError::TooSmall { needed: usize::MAX, found: bytes.len() as usize })
    } else if bytes.len() < needed {
        target == Err::<TargetMut<'a>, TargetError>(
            TargetError::TooSmall { needed: needed as usize, found: bytes.len() as usize })
    } else {
        &&& target is Ok
        &&& target->Ok_0@ == (TargetView { width, height, stride: stride as usize, format, bytes })
        &&& target->Ok_0@.fits()
    }
}

} // verus!
