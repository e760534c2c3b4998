//! The QOI header and the stream's fixed byte patterns.
//!
//! A stream opens with the four magic bytes and the ten header bytes: fourteen in all.
use vstd::prelude::*;

verus! {

/// A QOI header: width, height, channels (3 = RGB, 4 = RGBA) and colorspace
/// (0 = sRGB with linear alpha, 1 = all linear). Channels and colorspace are
/// informational only.
#[derive(Clone, Copy, Debug, PartialEq, Eq, Structural)]
pub struct Header {
    pub width: u32,
    pub height: u32,
    pub channels: u8,
    pub colorspace: u8,
}

/// The length of the header fields on the wire, after the magic.
pub const HEADER_LEN: usize = 10;

/// The four bytes `"qoif"` a QOI stream starts with.
pub open spec fn magic() -> Seq<u8> {
    seq![0x71u8, 0x6fu8, 0x69u8, 0x66u8]
}

/// The eight bytes `00 00 00 00 00 00 00 01` a QOI stream ends with.
pub open spec fn stream_end() -> Seq<u8> {
    seq![0u8, 0u8, 0u8, 0u8, 0u8, 0u8, 0u8, 1u8]
}

/// The big-endian bytes of `x`.
pub open spec fn be32(x: u32) -> Seq<u8> {
    seq![(x >> 24u32) as u8, (x >> 16u32) as u8, (x >> 8u32) as u8, x as u8]
}

/// The number whose big-endian bytes are `b0 b1 b2 b3`.
pub open spec fn from_be32(b0: u8, b1: u8, b2: u8, b3: u8) -> u32 {
    ((b0 as u32) << 24u32) | ((b1 as u32) << 16u32) | ((b2 as u32) << 8u32) | (b3 as u32)
}

/// The header's bytes: width and height big-endian, then channels and colorspace.
pub open spec fn header_bytes(h: Header) -> Seq<u8> {
    be32(h.width) + be32(h.height) + seq![h.channels, h.colorspace]
}

/// The header held by the ten bytes of `s` from `pos` on.
pub open spec fn header_at(s: Seq<u8>, pos: int) -> Header {
    Header {
        width: from_be32(s[pos], s[pos + 1], s[pos + 2], s[pos + 3]),
        height: from_be32(s[pos + 4], s[pos + 5], s[pos + 6], s[pos + 7]),
        channels: s[pos + 8],
        colorspace: s[pos + 9],
    }
}

proof fn lemma_be32_round_trip(x: u32)
    ensures
        from_be32((x >> 24u32) as u8, (x >> 16u32) as u8, (x >> 8u32) as u8, x as u8) == x,
{
    assert(((((x >> 24u32) as u8) as u32) << 24u32) | ((((x >> 16u32) as u8) as u32) << 16u32)
        | ((((x >> 8u32) as u8) as u32) << 8u32) | ((x as u8) as u32) == x) by (bit_vector);
}

/// Reading back the bytes of a header gives the same header.
pub proof fn lemma_header_round_trip(pre: Seq<u8>, h: Header, rest: Seq<u8>)
    ensures
        header_at(pre + header_bytes(h) + rest, pre.len() as int) == h,
{
    lemma_be32_round_trip(h.width);
    lemma_be32_round_trip(h.height);
    let s = pre + header_bytes(h) + rest;
    let p = pre.len() as int;
    assert(s[p] == (h.width >> 24u32) as u8);
    assert(s[p + 4] == (h.height >> 24u32) as u8);
}

fn push_be32(out: &mut Vec<u8>, x: u32)
    ensures
        final(out)@ == old(out)@ + be32(x),
{
    out.push((x >> 24u32) as u8);
    out.push((x >> 16u32) as u8);
    out.push((x >> 8u32) as u8);
    out.push(x as u8);
    assert(out@ =~= old(out)@ + be32(x));
}

impl Header {
    /// A header for an sRGB image.
    pub fn rgb(width: u32, height: u32) -> (h: Header)
        ensures
            h == (Header { width, height, channels: 3, colorspace: 0 }),
    {
        Header { width, height, channels: 3, colorspace: 0 }
    }

    /// A header for an sRGBA image.
    pub fn rgba(width: u32, height: u32) -> (h: Header)
        ensures
            h == (Header { width, height, channels: 4, colorspace: 0 }),
    {
        Header { width, height, channels: 4, colorspace: 0 }
    }

    /// The number of pixels the header declares.
    pub open spec fn pixel_count(self) -> nat {
        self.width as nat * self.height as nat
    }

    /// Appends the header's ten bytes to `out`.
    pub fn write_to_vec(&self, out: &mut Vec<u8>)
        ensures
            final(out)@ == old(out)@ + header_bytes(*self),
    {
        push_be32(out, self.width);
        push_be32(out, self.height);
        out.push(self.channels);
        out.push(self.colorspace);
        assert(out@ =~= old(out)@ + header_bytes(*self));
    }

    /// Reads a header from the ten bytes of `s` from `pos` on.
    pub fn read_from(s: &[u8], pos: usize) -> (h: Header)
        requires
            pos + 10 <= s@.len(),
        ensures
            h == header_at(s@, pos as int),
    {
        let width = ((s[pos] as u32) << 24u32) | ((s[pos + 1] as u32) << 16u32) | ((s[pos
            + 2] as u32) << 8u32) | (s[pos + 3] as u32);
        let height = ((s[pos + 4] as u32) << 24u32) | ((s[pos + 5] as u32) << 16u32) | ((s[pos
            + 6] as u32) << 8u32) | (s[pos + 7] as u32);
        Header { width, height, channels: s[pos + 8], colorspace: s[pos + 9] }
    }
}

} // verus!
