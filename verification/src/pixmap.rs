//! An owned render target.
//!
//! The final target is never allocated unless asked: a consumer rendering into
//! a window surface or a shared buffer lends its bytes through
//! [`Pixmap::borrowed`] instead, and no copy happens.
use vstd::prelude::*;

use crate::pixels::{PixelFormat, TargetError, TargetMut, TargetView, encode_color, encoded_color, target_result, with_pattern};
use crate::tables::FineTables;

verus! {

/// An owned, tightly packed pixel buffer.
#[derive(Debug, PartialEq, Eq)]
pub struct Pixmap {
    data: Vec<u8>,
    width: u32,
    height: u32,
    format: PixelFormat,
}

/// The abstract content of a [`Pixmap`].
pub struct PixmapView {
    pub width: u32,
    pub height: u32,
    pub format: PixelFormat,
    pub bytes: Seq<u8>,
}

impl View for Pixmap {
    type V = PixmapView;

    closed spec fn view(&self) -> PixmapView {
        PixmapView { width: self.width, height: self.height, format: self.format, bytes: self.data@ }
    }
}

impl PixmapView {
    /// The bytes are exactly `width * height` pixels of four bytes.
    pub open spec fn packed(self) -> bool {
        self.bytes.len() == self.width as int * self.height as int * 4
    }
}

impl Pixmap {
    /// A transparent pixmap: every byte zero.
    pub fn new(width: u32, height: u32, format: PixelFormat) -> (pixmap: Pixmap)
        requires
            width as int * height as int * 4 <= usize::MAX,
        ensures
            pixmap@.width == width,
            pixmap@.height == height,
            pixmap@.format == format,
            pixmap@.bytes == Seq::new((width as int * height as int * 4) as nat, |i: int| 0u8),
            pixmap@.packed(),
    {
        proof {
            assert(width as int * height as int <= usize::MAX) by (nonlinear_arith)
                requires width as int * height as int * 4 <= usize::MAX;
        }
        let len = width as usize * height as usize * format.bytes_per_pixel();
        let data: Vec<u8> = vec![0u8; len];
        assert(data@ =~= Seq::new((width as int * height as int * 4) as nat, |i: int| 0u8));
        Pixmap { data, width, height, format }
    }

    /// Wraps caller-owned bytes without copying: the borrowed form of a
    /// pixmap, which is what the renderer takes.
    pub fn borrowed<'a>(data: &'a mut [u8], width: u32, height: u32, format: PixelFormat) -> (target: Result<TargetMut<'a>, TargetError>)
        requires
            width as int * 4 <= usize::MAX,
        ensures
            target_result(target, old(data)@, width, height, width as int * 4, format),
            target matches Ok(t) ==> final(t.buffer())@ == final(data)@,
            target is Err ==> final(data)@ == old(data)@,
    {
        TargetMut::new(data, width, height, format)
    }

    pub fn width(&self) -> (width: u32)
        ensures
            width == self@.width,
    {
        self.width
    }

    pub fn height(&self) -> (height: u32)
        ensures
            height == self@.height,
    {
        self.height
    }

    pub fn format(&self) -> (format: PixelFormat)
        ensures
            format == self@.format,
    {
        self.format
    }

    pub fn data(&self) -> (data: &[u8])
        ensures
            data@ == self@.bytes,
    {
        self.data.as_slice()
    }

    /// The bytes, to write into directly. Their number cannot change.
    pub fn data_mut(&mut self) -> (data: &mut [u8])
        ensures
            data@ == old(self)@.bytes,
            final(self)@ == (PixmapView { bytes: final(data)@, ..old(self)@ }),
    {
        self.data.as_mut_slice()
    }

    /// The bytes, given up.
    pub fn into_data(self) -> (data: Vec<u8>)
        ensures
            data@ == self@.bytes,
    {
        self.data
    }

    /// A borrowed view for the renderer to write into. A pixmap is always
    /// large enough for itself, so this cannot fail.
    pub fn as_target(&mut self) -> (target: TargetMut<'_>)
        requires
            old(self)@.packed(),
            old(self)@.width as int * 4 <= usize::MAX,
        ensures
            target@ == (TargetView {
                width: old(self)@.width,
                height: old(self)@.height,
                stride: (old(self)@.width as int * 4) as usize,
                format: old(self)@.format,
                bytes: old(self)@.bytes,
            }),
            target@.fits(),
            final(self)@ == (PixmapView { bytes: final(target.buffer())@, ..old(self)@ }),
    {
        let width = self.width;
        let height = self.height;
        let format = self.format;
        let len = self.data.len();
        proof {
            assert((width as int * 4) * height as int == width as int * height as int * 4) by (nonlinear_arith);
        }
        let target = TargetMut::new(self.data.as_mut_slice(), width, height, format);
        target.unwrap()
    }

    /// Overwrites every pixel with one colour, given as premultiplied linear
    /// levels (red, green, blue, alpha) and encoded for the pixmap's format.
    pub fn fill(&mut self, levels: [u32; 4], tables: &FineTables)
        requires
            old(self)@.packed(),
        ensures
            final(self)@ == (PixmapView {
                bytes: with_pattern(
                    old(self)@.bytes,
                    0,
                    old(self)@.width as int * old(self)@.height as int,
                    encoded_color(levels@, old(self)@.format, *tables),
                ),
                ..old(self)@
            }),
    {
        let bytes = encode_color(levels, self.format, tables);
        let pixels = self.data.len() / 4;
        crate::pixels::fill_pattern(self.data.as_mut_slice(), 0, pixels, bytes);
    }

    /// One pixel's bytes, or `None` outside the pixmap.
    pub fn pixel(&self, x: u32, y: u32) -> (pixel: Option<[u8; 4]>)
        requires
            self@.packed(),
        ensures
            pixel is Some <==> (x < self@.width && y < self@.height),
            pixel matches Some(p) ==> p@ == self@.bytes.subrange(
                (y as int * self@.width as int + x as int) * 4,
                (y as int * self@.width as int + x as int) * 4 + 4,
            ),
    {
        let len = self.data.len();
        if x >= self.width || y >= self.height {
            return None;
        }
        proof {
            assert((y as int * self.width as int + x as int) * 4 + 4 <= self.width as int * self.height as int * 4) by (nonlinear_arith)
                requires x < self.width, y < self.height;
        }
        let at = (y as usize * self.width as usize + x as usize) * 4;
        let pixel: [u8; 4] = [self.data[at], self.data[at + 1], self.data[at + 2], self.data[at + 3]];
        assert(pixel@ =~= self@.bytes.subrange(at as int, at as int + 4));
        Some(pixel)
    }
}

/// A filled pixmap reads back the fill at every pixel: the four bytes of
/// pixel `(x, y)` are the pattern that was written.
pub proof fn lemma_fill_reads_back(bytes: Seq<u8>, width: u32, height: u32, pixel: Seq<u8>, x: u32, y: u32)
    requires
        bytes.len() == width as int * height as int * 4,
        pixel.len() == 4,
        x < width,
        y < height,
    ensures
        with_pattern(bytes, 0, width as int * height as int, pixel).subrange(
            (y as int * width as int + x as int) * 4,
            (y as int * width as int + x as int) * 4 + 4,
        ) == pixel,
{
    let at = (y as int * width as int + x as int) * 4;
    let filled = with_pattern(bytes, 0, width as int * height as int, pixel);
    assert(at + 4 <= width as int * height as int * 4) by (nonlinear_arith)
        requires x < width, y < height, at == (y as int * width as int + x as int) * 4;
    assert(0 <= at) by (nonlinear_arith) requires at == (y as int * width as int + x as int) * 4;
    assert forall|k: int| 0 <= k < 4 implies #[trigger] filled.subrange(at, at + 4)[k] == pixel[k] by {
        vstd::arithmetic::div_mod::lemma_fundamental_div_mod_converse(at + k, 4, y as int * width as int + x as int, k);
    }
    assert(filled.subrange(at, at + 4) =~= pixel);
}

impl Clone for Pixmap {
    fn clone(&self) -> (copy: Pixmap)
        ensures
            copy@ == self@,
    {
        let data = self.data.clone();
        assert(data@ =~= self.data@);
        Pixmap { data, width: self.width, height: self.height, format: self.format }
    }
}

} // verus!
