//! Reading raw interleaved RGBA bytes as pixels.
use vstd::prelude::*;
use crate::pixel::RgbaPixel;

verus! {

/// The pixels of interleaved `r g b a` bytes; a final group of fewer than four bytes
/// is dropped.
pub open spec fn rgba_pixels(s: Seq<u8>) -> Seq<RgbaPixel> {
    Seq::new(
        s.len() / 4,
        |i: int| RgbaPixel { r: s[4 * i], g: s[4 * i + 1], b: s[4 * i + 2], a: s[4 * i + 3] },
    )
}

/// Hands out the pixels of a slice of interleaved RGBA bytes, one at a time.
pub struct RgbaBytesAdapater<'a> {
    inner: &'a [u8],
    pos: usize,
}

impl<'a> RgbaBytesAdapater<'a> {
    /// The bytes being read.
    pub closed spec fn bytes(&self) -> Seq<u8> {
        self.inner@
    }

    /// The number of pixels handed out so far.
    pub closed spec fn taken(&self) -> nat {
        self.pos as nat / 4
    }

    pub closed spec fn wf(&self) -> bool {
        self.pos % 4 == 0 && self.pos <= self.inner@.len()
    }

    /// An adapter at the start of `slice`.
    pub fn new(slice: &'a [u8]) -> (a: RgbaBytesAdapater<'a>)
        ensures
            a.wf(),
            a.bytes() == slice@,
            a.taken() == 0,
    {
        RgbaBytesAdapater { inner: slice, pos: 0 }
    }

    /// The next pixel, or `None` once fewer than four bytes are left.
    pub fn next_pixel(&mut self) -> (r: Option<RgbaPixel>)
        requires
            old(self).wf(),
        ensures
            final(self).wf(),
            final(self).bytes() == old(self).bytes(),
            old(self).taken() < rgba_pixels(old(self).bytes()).len() ==> r == Some(
                rgba_pixels(old(self).bytes())[old(self).taken() as int],
            ) && final(self).taken() == old(self).taken() + 1,
            old(self).taken() >= rgba_pixels(old(self).bytes()).len() ==> r is None
                && final(self).taken() == old(self).taken(),
    {
        if self.inner.len() - self.pos < 4 {
            return None;
        }
        let p = self.pos;
        let px = RgbaPixel {
            r: self.inner[p],
            g: self.inner[p + 1],
            b: self.inner[p + 2],
            a: self.inner[p + 3],
        };
        self.pos = p + 4;
        Some(px)
    }
}

/// All the pixels of interleaved RGBA bytes.
pub fn pixels_from_rgba_bytes(bytes: &[u8]) -> (v: Vec<RgbaPixel>)
    ensures
        v@ == rgba_pixels(bytes@),
{
    let mut adapter = RgbaBytesAdapater::new(bytes);
    let mut out: Vec<RgbaPixel> = Vec::new();
    loop
        invariant
            adapter.wf(),
            adapter.bytes() == bytes@,
            adapter.taken() <= rgba_pixels(bytes@).len(),
            out@ == rgba_pixels(bytes@).take(adapter.taken() as int),
        ensures
            out@ == rgba_pixels(bytes@),
        decreases rgba_pixels(bytes@).len() - adapter.taken(),
    {
        let ghost before = adapter.taken();
        match adapter.next_pixel() {
            Some(p) => {
                out.push(p);
                assert(rgba_pixels(bytes@).take(before + 1 as int) =~= rgba_pixels(bytes@).take(
                    before as int,
                ).push(p));
            },
            None => {
                assert(rgba_pixels(bytes@).take(before as int) =~= rgba_pixels(bytes@));
                break;
            },
        }
    }
    out
}

} // verus!
