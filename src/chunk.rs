//! The chunk: the tagged unit of a QOI stream, and its bytes on the wire.
use vstd::prelude::*;
use crate::pixel::RgbaPixel;

verus! {

/// Tag of an index chunk: `00xxxxxx`.
pub const TAG_INDEX: u8 = 0x00;
/// Tag of a diff chunk: `01xxxxxx`.
pub const TAG_DIFF: u8 = 0x40;
/// Tag of a luma chunk: `10xxxxxx`.
pub const TAG_LUMA: u8 = 0x80;
/// Tag of a run chunk: `11xxxxxx`.
pub const TAG_RUN: u8 = 0xc0;
/// Tag of an RGB chunk: `11111110`.
pub const TAG_RGB: u8 = 0xfe;
/// Tag of an RGBA chunk: `11111111`.
pub const TAG_RGBA: u8 = 0xff;
/// The longest run one chunk can carry.
pub const MAX_RUN: u8 = 62;

/// A QOI operation chunk.
#[derive(Clone, Copy, Debug, PartialEq, Eq, Structural)]
pub enum Chunk {
    /// A new RGB pixel; the alpha is copied from the previous pixel.
    Rgb { r: u8, g: u8, b: u8 },
    /// A new RGBA pixel.
    Rgba { r: u8, g: u8, b: u8, a: u8 },
    /// A slot of the cache of previously seen pixels, `0..=63`.
    Index { idx: u8 },
    /// A small difference from the previous pixel, each in `-2..=1`.
    Diff { dr: i8, dg: i8, db: i8 },
    /// A larger difference: `dg` in `-32..=31`, the others in `-8..=7`.
    Luma { dg: i8, dr_dg: i8, db_dg: i8 },
    /// `length` repeats of the previous pixel, `1..=62`.
    Run { length: u8 },
}

pub open spec fn diff_range(dr: int, dg: int, db: int) -> bool {
    -2 <= dr <= 1 && -2 <= dg <= 1 && -2 <= db <= 1
}

pub open spec fn luma_range(dr_dg: int, db_dg: int, dg: int) -> bool {
    -8 <= dr_dg <= 7 && -32 <= dg <= 31 && -8 <= db_dg <= 7
}

impl Chunk {
    /// Every field lies in the range its bits on the wire can hold.
    pub open spec fn wf(self) -> bool {
        match self {
            Chunk::Index { idx } => idx < 64,
            Chunk::Diff { dr, dg, db } => diff_range(dr as int, dg as int, db as int),
            Chunk::Luma { dg, dr_dg, db_dg } => luma_range(dr_dg as int, db_dg as int, dg as int),
            Chunk::Run { length } => 1 <= length <= 62,
            _ => true,
        }
    }
}

/// The bytes of a chunk: its tag, with any biased fields packed in, then its operands.
pub open spec fn chunk_bytes(c: Chunk) -> Seq<u8> {
    match c {
        Chunk::Rgb { r, g, b } => seq![0xfeu8, r, g, b],
        Chunk::Rgba { r, g, b, a } => seq![0xffu8, r, g, b, a],
        Chunk::Index { idx } => seq![idx],
        Chunk::Diff { dr, dg, db } => seq![(0x40 + (dr + 2) * 16 + (dg + 2) * 4 + (db + 2)) as u8],
        Chunk::Luma { dg, dr_dg, db_dg } => seq![
            (0x80 + dg + 32) as u8,
            ((dr_dg + 8) * 16 + (db_dg + 8)) as u8,
        ],
        Chunk::Run { length } => seq![(0xc0 + length - 1) as u8],
    }
}

/// The bytes of a sequence of chunks, one after another.
pub open spec fn chunks_bytes(cs: Seq<Chunk>) -> Seq<u8>
    decreases cs.len(),
{
    if cs.len() == 0 {
        seq![]
    } else {
        chunks_bytes(cs.drop_last()) + chunk_bytes(cs.last())
    }
}

/// Whether `(dr, dg, db)` fits a diff chunk.
pub fn in_diff_range(dr: i8, dg: i8, db: i8) -> (r: bool)
    ensures
        r == diff_range(dr as int, dg as int, db as int),
{
    (dr > -3 && dr < 2) && (dg > -3 && dg < 2) && (db > -3 && db < 2)
}

/// Whether the green-relative differences fit a luma chunk.
pub fn in_luma_range(dr_dg: i8, db_dg: i8, dg: i8) -> (r: bool)
    ensures
        r == luma_range(dr_dg as int, db_dg as int, dg as int),
{
    (dr_dg > -9 && dr_dg < 8) && (dg > -33 && dg < 32) && (db_dg > -9 && db_dg < 8)
}

/// A difference in `-255..=255` brought into `-128..=127` by 8-bit wraparound.
pub open spec fn wrap_i8(d: int) -> int {
    if d >= 128 {
        d - 256
    } else if d < -128 {
        d + 256
    } else {
        d
    }
}

/// A value in `-256..=511` brought into `0..=255` by 8-bit wraparound.
pub open spec fn wrap_u8(x: int) -> u8 {
    if x < 0 {
        (x + 256) as u8
    } else if x >= 256 {
        (x - 256) as u8
    } else {
        x as u8
    }
}

/// The chunk that describes `p` against the previous pixel `prev`, when `p` is neither
/// a repeat of `prev` nor found in the cache.
pub open spec fn delta_chunk(prev: RgbaPixel, p: RgbaPixel) -> Chunk {
    if p.a == prev.a {
        let dr = wrap_i8(p.r - prev.r);
        let dg = wrap_i8(p.g - prev.g);
        let db = wrap_i8(p.b - prev.b);
        let dr_dg = wrap_i8(dr - dg);
        let db_dg = wrap_i8(db - dg);
        if diff_range(dr, dg, db) {
            Chunk::Diff { dr: dr as i8, dg: dg as i8, db: db as i8 }
        } else if luma_range(dr_dg, db_dg, dg) {
            Chunk::Luma { dg: dg as i8, dr_dg: dr_dg as i8, db_dg: db_dg as i8 }
        } else {
            Chunk::Rgb { r: p.r, g: p.g, b: p.b }
        }
    } else {
        Chunk::Rgba { r: p.r, g: p.g, b: p.b, a: p.a }
    }
}

/// `a - b` with 8-bit wraparound, read as a signed byte.
pub fn wrapping_delta(a: u8, b: u8) -> (d: i8)
    ensures
        d as int == wrap_i8(a - b),
{
    let x: i16 = a as i16 - b as i16;
    if x >= 128 {
        (x - 256) as i8
    } else if x < -128 {
        (x + 256) as i8
    } else {
        x as i8
    }
}

/// `a - b` for signed bytes, with 8-bit wraparound.
pub fn wrapping_delta_signed(a: i8, b: i8) -> (d: i8)
    ensures
        d as int == wrap_i8(a - b),
{
    let x: i16 = a as i16 - b as i16;
    if x >= 128 {
        (x - 256) as i8
    } else if x < -128 {
        (x + 256) as i8
    } else {
        x as i8
    }
}

/// `base + delta` with 8-bit wraparound.
pub fn wrapping_offset(base: u8, delta: i16) -> (v: u8)
    requires
        -256 <= delta <= 256,
    ensures
        v == wrap_u8(base + delta),
{
    let x: i16 = base as i16 + delta;
    if x < 0 {
        (x + 256) as u8
    } else if x >= 256 {
        (x - 256) as u8
    } else {
        x as u8
    }
}

/// The chunk for a pixel that differs from the previous one and misses the cache.
pub fn delta_chunk_of(prev: RgbaPixel, p: RgbaPixel) -> (c: Chunk)
    ensures
        c == delta_chunk(prev, p),
        c.wf(),
{
    if p.a == prev.a {
        let dr = wrapping_delta(p.r, prev.r);
        let dg = wrapping_delta(p.g, prev.g);
        let db = wrapping_delta(p.b, prev.b);
        let dr_dg = wrapping_delta_signed(dr, dg);
        let db_dg = wrapping_delta_signed(db, dg);
        if in_diff_range(dr, dg, db) {
            Chunk::Diff { dr, dg, db }
        } else if in_luma_range(dr_dg, db_dg, dg) {
            Chunk::Luma { dg, dr_dg, db_dg }
        } else {
            Chunk::Rgb { r: p.r, g: p.g, b: p.b }
        }
    } else {
        Chunk::Rgba { r: p.r, g: p.g, b: p.b, a: p.a }
    }
}

impl Chunk {
    /// Appends the chunk's bytes to `out`.
    pub fn write_to_vec(&self, out: &mut Vec<u8>)
        requires
            self.wf(),
        ensures
            final(out)@ == old(out)@ + chunk_bytes(*self),
    {
        match *self {
            Chunk::Rgb { r, g, b } => {
                out.push(TAG_RGB);
                out.push(r);
                out.push(g);
                out.push(b);
            },
            Chunk::Rgba { r, g, b, a } => {
                out.push(TAG_RGBA);
                out.push(r);
                out.push(g);
                out.push(b);
                out.push(a);
            },
            Chunk::Index { idx } => {
                out.push(TAG_INDEX + idx);
            },
            Chunk::Diff { dr, dg, db } => {
                out.push(TAG_DIFF + ((dr + 2) as u8) * 16 + ((dg + 2) as u8) * 4 + (db + 2) as u8);
            },
            Chunk::Luma { dg, dr_dg, db_dg } => {
                out.push(TAG_LUMA + (dg + 32) as u8);
                out.push(((dr_dg + 8) as u8) * 16 + (db_dg + 8) as u8);
            },
            Chunk::Run { length } => {
                out.push(TAG_RUN + (length - 1));
            },
        }
        assert(out@ =~= old(out)@ + chunk_bytes(*self));
    }

    /// The chunk's bytes.
    pub fn to_vec(&self) -> (v: Vec<u8>)
        requires
            self.wf(),
        ensures
            v@ == chunk_bytes(*self),
    {
        let mut out: Vec<u8> = Vec::with_capacity(5);
        self.write_to_vec(&mut out);
        assert(out@ =~= chunk_bytes(*self));
        out
    }
}

} // verus!
