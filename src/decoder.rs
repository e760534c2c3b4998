//! The decoder: a byte cursor that reads chunks, and a decoder that turns
//! chunks back into pixels.
use vstd::prelude::*;
use crate::chunk::{Chunk, wrap_u8, wrapping_offset, TAG_RGB, TAG_RGBA};
use crate::header::{Header, header_at, magic, stream_end, HEADER_LEN};
use crate::pixel::{RgbaPixel, PixelCache, pixel_hash, opaque_black};
use crate::buffers::{bytes_held, empty_bytes, bytes_from_array, bytes_empty, pop_byte};
use arrayvec::ArrayVec;

verus! {

/// Why a stream could not be decoded.
#[derive(Clone, Copy, Debug, PartialEq, Eq, Structural)]
pub enum DecodeError {
    /// The stream does not start with `"qoif"`.
    InvalidMagic,
    /// The stream ends in the middle of a header or a chunk.
    Truncated,
    /// The stream ends at a chunk boundary without the end marker.
    EndOfInput,
}

/// Whether the seven bytes after `pos` complete the end marker.
pub open spec fn end_marker_follows(s: Seq<u8>, pos: int) -> bool {
    pos + 8 <= s.len() && s.subrange(pos + 1, pos + 8) == stream_end().subrange(1, 8)
}

/// The chunk that starts at `pos` in `s`, with the position after it; `None` at
/// the end marker.
#[verifier::opaque]
pub open spec fn parse_at(s: Seq<u8>, pos: int) -> Result<Option<(Chunk, int)>, DecodeError> {
    if pos < 0 || pos >= s.len() {
        Err(DecodeError::EndOfInput)
    } else {
        let tag = s[pos];
        if tag == 0xfe {
            if pos + 4 <= s.len() {
                Ok(Some((Chunk::Rgb { r: s[pos + 1], g: s[pos + 2], b: s[pos + 3] }, pos + 4)))
            } else {
                Err(DecodeError::Truncated)
            }
        } else if tag == 0xff {
            if pos + 5 <= s.len() {
                Ok(
                    Some(
                        (
                            Chunk::Rgba { r: s[pos + 1], g: s[pos + 2], b: s[pos + 3], a: s[pos + 4] },
                            pos + 5,
                        ),
                    ),
                )
            } else {
                Err(DecodeError::Truncated)
            }
        } else if tag == 0 && end_marker_follows(s, pos) {
            Ok(None)
        } else if tag < 0x40 {
            Ok(Some((Chunk::Index { idx: tag }, pos + 1)))
        } else if tag < 0x80 {
            Ok(
                Some(
                    (
                        Chunk::Diff {
                            dr: ((tag / 16) % 4 - 2) as i8,
                            dg: ((tag / 4) % 4 - 2) as i8,
                            db: (tag % 4 - 2) as i8,
                        },
                        pos + 1,
                    ),
                ),
            )
        } else if tag < 0xc0 {
            if pos + 2 <= s.len() {
                Ok(
                    Some(
                        (
                            Chunk::Luma {
                                dg: (tag - 0x80 - 32) as i8,
                                dr_dg: (s[pos + 1] / 16 - 8) as i8,
                                db_dg: (s[pos + 1] % 16 - 8) as i8,
                            },
                            pos + 2,
                        ),
                    ),
                )
            } else {
                Err(DecodeError::Truncated)
            }
        } else {
            Ok(Some((Chunk::Run { length: (tag - 0xc0 + 1) as u8 }, pos + 1)))
        }
    }
}

/// A forward-only cursor over the chunk stream of a QOI buffer.
pub struct SliceReader<'a> {
    inner: &'a [u8],
    cursor: usize,
}

impl<'a> SliceReader<'a> {
    /// The whole buffer.
    pub closed spec fn bytes(&self) -> Seq<u8> {
        self.inner@
    }

    /// The position of the next byte to read.
    pub closed spec fn pos(&self) -> int {
        self.cursor as int
    }

    pub open spec fn wf(&self) -> bool {
        0 <= self.pos() <= self.bytes().len()
    }

    /// Checks the magic, reads the header, and places the cursor on the first chunk.
    pub fn start(inner: &'a [u8]) -> (r: Result<(Header, SliceReader<'a>), DecodeError>)
        ensures
            !(inner@.len() >= 4 && inner@.subrange(0, 4) == magic()) ==> r == Err::<
                (Header, SliceReader<'a>),
                DecodeError,
            >(DecodeError::InvalidMagic),
            inner@.len() >= 4 && inner@.subrange(0, 4) == magic() && inner@.len() < 14 ==> r
                == Err::<(Header, SliceReader<'a>), DecodeError>(DecodeError::Truncated),
            inner@.len() >= 14 && inner@.subrange(0, 4) == magic() ==> r is Ok,
            r matches Ok((h, rd)) ==> h == header_at(inner@, 4) && rd.bytes() == inner@
                && rd.pos() == 14 && rd.wf(),
    {
        if inner.len() < 4 || inner[0] != 0x71 || inner[1] != 0x6f || inner[2] != 0x69
            || inner[3] != 0x66 {
            proof {
                if inner@.len() >= 4 && inner@.subrange(0, 4) == magic() {
                    assert(inner@[0] == inner@.subrange(0, 4)[0]);
                    assert(inner@[1] == inner@.subrange(0, 4)[1]);
                    assert(inner@[2] == inner@.subrange(0, 4)[2]);
                    assert(inner@[3] == inner@.subrange(0, 4)[3]);
                }
            }
            return Err(DecodeError::InvalidMagic);
        }
        assert(inner@.subrange(0, 4) =~= magic());
        if inner.len() < 4 + HEADER_LEN {
            return Err(DecodeError::Truncated);
        }
        let header = Header::read_from(inner, 4);
        Ok((header, SliceReader { inner, cursor: 4 + HEADER_LEN }))
    }

    /// Turns the reader into a pixel decoder.
    pub fn into_decoder(self) -> (d: ImageDecoder<'a>)
        requires
            self.wf(),
        ensures
            d.wf(),
            d.reader() == self,
            d.cache() == Seq::new(64, |_i: int| opaque_black()),
            d.previous() == opaque_black(),
            d.run() == 0,
    {
        ImageDecoder::new(self)
    }

    /// Whether the seven bytes after the current position complete the end marker.
    fn end_marker_ahead(&self) -> (r: bool)
        requires
            self.wf(),
            self.pos() >= 1,
        ensures
            r == end_marker_follows(self.bytes(), self.pos() - 1),
    {
        if self.inner.len() - self.cursor < 7 {
            return false;
        }
        let c = self.cursor;
        let r = self.inner[c] == 0 && self.inner[c + 1] == 0 && self.inner[c + 2] == 0
            && self.inner[c + 3] == 0 && self.inner[c + 4] == 0 && self.inner[c + 5] == 0
            && self.inner[c + 6] == 1;
        let ghost sub = self.inner@.subrange(c - 1 + 1, c - 1 + 8);
        let ghost tail = stream_end().subrange(1, 8);
        assert(r ==> sub =~= tail);
        assert(sub == tail ==> r) by {
            if sub == tail {
                assert(sub[0] == tail[0]);
                assert(sub[1] == tail[1]);
                assert(sub[2] == tail[2]);
                assert(sub[3] == tail[3]);
                assert(sub[4] == tail[4]);
                assert(sub[5] == tail[5]);
                assert(sub[6] == tail[6]);
            }
        }
        r
    }

    /// Reads the next chunk; `Ok(None)` at the end marker.
    pub fn next_chunk(&mut self) -> (r: Result<Option<Chunk>, DecodeError>)
        requires
            old(self).wf(),
        ensures
            final(self).wf(),
            final(self).bytes() == old(self).bytes(),
            match parse_at(old(self).bytes(), old(self).pos()) {
                Err(e) => r == Err::<Option<Chunk>, DecodeError>(e),
                Ok(None) => r == Ok::<Option<Chunk>, DecodeError>(None),
                Ok(Some((c, next))) => r == Ok::<Option<Chunk>, DecodeError>(Some(c))
                    && final(self).pos() == next,
            },
            r matches Ok(Some(c)) ==> c.wf(),
    {
        reveal(parse_at);
        let len = self.inner.len();
        if self.cursor >= len {
            return Err(DecodeError::EndOfInput);
        }
        let pos = self.cursor;
        let tag = self.inner[pos];
        self.cursor = pos + 1;
        if tag == TAG_RGB {
            if len - pos < 4 {
                return Err(DecodeError::Truncated);
            }
            self.cursor = pos + 4;
            return Ok(Some(Chunk::Rgb { r: self.inner[pos + 1], g: self.inner[pos + 2], b: self.inner[pos + 3] }));
        }
        if tag == TAG_RGBA {
            if len - pos < 5 {
                return Err(DecodeError::Truncated);
            }
            self.cursor = pos + 5;
            return Ok(
                Some(
                    Chunk::Rgba {
                        r: self.inner[pos + 1],
                        g: self.inner[pos + 2],
                        b: self.inner[pos + 3],
                        a: self.inner[pos + 4],
                    },
                ),
            );
        }
        if tag == 0 && self.end_marker_ahead() {
            return Ok(None);
        }
        if tag < 0x40 {
            Ok(Some(Chunk::Index { idx: tag }))
        } else if tag < 0x80 {
            Ok(
                Some(
                    Chunk::Diff {
                        dr: ((tag / 16) % 4) as i8 - 2,
                        dg: ((tag / 4) % 4) as i8 - 2,
                        db: (tag % 4) as i8 - 2,
                    },
                ),
            )
        } else if tag < 0xc0 {
            if len - pos < 2 {
                return Err(DecodeError::Truncated);
            }
            let second = self.inner[pos + 1];
            self.cursor = pos + 2;
            Ok(
                Some(
                    Chunk::Luma {
                        dg: (tag - 0x80) as i8 - 32,
                        dr_dg: (second / 16) as i8 - 8,
                        db_dg: (second % 16) as i8 - 8,
                    },
                ),
            )
        } else {
            Ok(Some(Chunk::Run { length: tag - 0xc0 + 1 }))
        }
    }
}

/// The pixel a non-run chunk stands for, given the cache and the previous pixel.
pub open spec fn chunk_pixel(cache: Seq<RgbaPixel>, prev: RgbaPixel, c: Chunk) -> RgbaPixel {
    match c {
        Chunk::Rgb { r, g, b } => RgbaPixel { r, g, b, a: prev.a },
        Chunk::Rgba { r, g, b, a } => RgbaPixel { r, g, b, a },
        Chunk::Index { idx } => cache[idx as int],
        Chunk::Diff { dr, dg, db } => RgbaPixel {
            r: wrap_u8(prev.r + dr),
            g: wrap_u8(prev.g + dg),
            b: wrap_u8(prev.b + db),
            a: prev.a,
        },
        Chunk::Luma { dg, dr_dg, db_dg } => RgbaPixel {
            r: wrap_u8(prev.r + (dr_dg + dg)),
            g: wrap_u8(prev.g + dg),
            b: wrap_u8(prev.b + (db_dg + dg)),
            a: prev.a,
        },
        Chunk::Run { length: _ } => prev,
    }
}

/// Decoding one chunk: the new cache, the new previous pixel, and the pixels produced.
/// A run repeats the previous pixel and leaves the cache alone; any other chunk gives
/// one pixel, which is stored in its cache slot.
pub open spec fn dec_step(cache: Seq<RgbaPixel>, prev: RgbaPixel, c: Chunk) -> (
    Seq<RgbaPixel>,
    RgbaPixel,
    Seq<RgbaPixel>,
) {
    match c {
        Chunk::Run { length } => (cache, prev, Seq::new(length as nat, |_i: int| prev)),
        _ => {
            let q = chunk_pixel(cache, prev, c);
            (cache.update(pixel_hash(q) as int, q), q, seq![q])
        },
    }
}

/// Decoding a whole chunk sequence from the decoder's starting state.
pub open spec fn dec_chunks(cs: Seq<Chunk>) -> (Seq<RgbaPixel>, RgbaPixel, Seq<RgbaPixel>)
    decreases cs.len(),
{
    if cs.len() == 0 {
        (Seq::new(64, |_i: int| opaque_black()), opaque_black(), seq![])
    } else {
        let (cache, prev, out) = dec_chunks(cs.drop_last());
        let (cache2, prev2, more) = dec_step(cache, prev, cs.last());
        (cache2, prev2, out + more)
    }
}

/// The pixel a non-run chunk stands for.
fn pixel_of_chunk(cache: &PixelCache, prev: RgbaPixel, c: Chunk) -> (p: RgbaPixel)
    requires
        cache.wf(),
        c.wf(),
    ensures
        p == chunk_pixel(cache@, prev, c),
{
    match c {
        Chunk::Rgb { r, g, b } => RgbaPixel { r, g, b, a: prev.a },
        Chunk::Rgba { r, g, b, a } => RgbaPixel { r, g, b, a },
        Chunk::Index { idx } => cache.get(idx),
        Chunk::Diff { dr, dg, db } => RgbaPixel {
            r: wrapping_offset(prev.r, dr as i16),
            g: wrapping_offset(prev.g, dg as i16),
            b: wrapping_offset(prev.b, db as i16),
            a: prev.a,
        },
        Chunk::Luma { dg, dr_dg, db_dg } => RgbaPixel {
            r: wrapping_offset(prev.r, dr_dg as i16 + dg as i16),
            g: wrapping_offset(prev.g, dg as i16),
            b: wrapping_offset(prev.b, db_dg as i16 + dg as i16),
            a: prev.a,
        },
        Chunk::Run { length: _ } => prev,
    }
}

/// One call of [`ImageDecoder::next_pixel`]: from `d` to `d2`, with result `r`.
pub open spec fn pixel_step<'a>(
    d: ImageDecoder<'a>,
    d2: ImageDecoder<'a>,
    r: Result<Option<RgbaPixel>, DecodeError>,
) -> bool {
    &&& d2.reader().bytes() == d.reader().bytes()
    &&& d.run() > 0 ==> {
        &&& r == Ok::<Option<RgbaPixel>, DecodeError>(Some(d.previous()))
        &&& d2.run() == d.run() - 1
        &&& d2.previous() == d.previous()
        &&& d2.cache() == d.cache()
        &&& d2.reader() == d.reader()
    }
    &&& d.run() == 0 ==> match parse_at(d.reader().bytes(), d.reader().pos()) {
        Err(e) => r == Err::<Option<RgbaPixel>, DecodeError>(e),
        Ok(None) => r == Ok::<Option<RgbaPixel>, DecodeError>(None),
        Ok(Some((c, next))) => {
            let (cache2, prev2, out) = dec_step(d.cache(), d.previous(), c);
            &&& r == Ok::<Option<RgbaPixel>, DecodeError>(Some(prev2))
            &&& d2.reader().pos() == next
            &&& d2.cache() == cache2
            &&& d2.previous() == prev2
            &&& d2.run() + 1 == out.len()
        },
    }
}

/// A QOI decoder over the chunks of a [`SliceReader`].
pub struct ImageDecoder<'a> {
    inner: SliceReader<'a>,
    previously_seen: PixelCache,
    previous: RgbaPixel,
    run: u8,
}

impl<'a> ImageDecoder<'a> {
    pub closed spec fn reader(&self) -> SliceReader<'a> {
        self.inner
    }

    pub closed spec fn cache(&self) -> Seq<RgbaPixel> {
        self.previously_seen@
    }

    pub closed spec fn previous(&self) -> RgbaPixel {
        self.previous
    }

    /// How many more times the previous pixel is repeated before the next chunk is read.
    pub closed spec fn run(&self) -> nat {
        self.run as nat
    }

    pub open spec fn wf(&self) -> bool {
        &&& self.reader().wf()
        &&& self.cache().len() == 64
        &&& self.run() < 62
    }

    /// A decoder at the start of a chunk stream: every cache slot and the previous
    /// pixel opaque black, no pending run.
    pub fn new(inner: SliceReader<'a>) -> (d: ImageDecoder<'a>)
        requires
            inner.wf(),
        ensures
            d.wf(),
            d.reader() == inner,
            d.cache() == Seq::new(64, |_i: int| opaque_black()),
            d.previous() == opaque_black(),
            d.run() == 0,
    {
        ImageDecoder {
            inner,
            previously_seen: PixelCache::for_decoder(),
            previous: RgbaPixel { r: 0, g: 0, b: 0, a: 255 },
            run: 0,
        }
    }

    /// Turns the decoder into a source of RGBA bytes.
    pub fn into_rgba_bytes(self) -> (b: PixelsToRgbaBytes<'a>)
        requires
            self.wf(),
        ensures
            b.wf(),
            b.decoder() == self,
            b.pending() == Seq::<u8>::empty(),
    {
        PixelsToRgbaBytes { inner: self, buf: empty_bytes() }
    }

    /// The next pixel: a repeat while a run is pending, else the pixel of the next
    /// chunk. `Ok(None)` at the end marker.
    pub fn next_pixel(&mut self) -> (r: Result<Option<RgbaPixel>, DecodeError>)
        requires
            old(self).wf(),
        ensures
            final(self).wf(),
            pixel_step(*old(self), *final(self), r),
    {
        if self.run > 0 {
            self.run = self.run - 1;
            return Ok(Some(self.previous));
        }
        let c = match self.inner.next_chunk() {
            Err(e) => return Err(e),
            Ok(None) => return Ok(None),
            Ok(Some(c)) => c,
        };
        if let Chunk::Run { length } = c {
            self.run = length - 1;
            return Ok(Some(self.previous));
        }
        let p = pixel_of_chunk(&self.previously_seen, self.previous, c);
        self.previous = p;
        self.previously_seen.put(p);
        Ok(Some(p))
    }
}

/// Flattens the pixels of a decoder into RGBA bytes, `r g b a` per pixel.
pub struct PixelsToRgbaBytes<'a> {
    inner: ImageDecoder<'a>,
    buf: ArrayVec<u8, 4>,
}

impl<'a> PixelsToRgbaBytes<'a> {
    pub closed spec fn decoder(&self) -> ImageDecoder<'a> {
        self.inner
    }

    /// The bytes of the current pixel not handed out yet, in the order they come.
    pub closed spec fn pending(&self) -> Seq<u8> {
        bytes_held(self.buf).reverse()
    }

    pub open spec fn wf(&self) -> bool {
        self.decoder().wf() && self.pending().len() < 4
    }

    /// The next byte: the rest of the current pixel's bytes first, else the `r`
    /// byte of the decoder's next pixel. `Ok(None)` once the decoder has reached the
    /// end marker.
    pub fn next_byte(&mut self) -> (r: Result<Option<u8>, DecodeError>)
        requires
            old(self).wf(),
        ensures
            final(self).wf(),
            old(self).pending().len() > 0 ==> {
                &&& r == Ok::<Option<u8>, DecodeError>(Some(old(self).pending()[0]))
                &&& final(self).pending() == old(self).pending().drop_first()
                &&& final(self).decoder() == old(self).decoder()
            },
            old(self).pending().len() == 0 ==> exists|pr: Result<Option<RgbaPixel>, DecodeError>|
                #[trigger] pixel_step(old(self).decoder(), final(self).decoder(), pr) && match pr {
                    Err(e) => r == Err::<Option<u8>, DecodeError>(e),
                    Ok(None) => r == Ok::<Option<u8>, DecodeError>(None),
                    Ok(Some(p)) => r == Ok::<Option<u8>, DecodeError>(Some(p.r))
                        && final(self).pending() == seq![p.g, p.b, p.a],
                },
    {
        if bytes_empty(&self.buf) {
            let pr = self.inner.next_pixel();
            let p = match pr {
                Err(e) => {
                    assert(pixel_step(old(self).decoder(), self.decoder(), pr));
                    return Err(e);
                },
                Ok(None) => {
                    assert(pixel_step(old(self).decoder(), self.decoder(), pr));
                    return Ok(None);
                },
                Ok(Some(p)) => p,
            };
            self.buf = bytes_from_array([p.a, p.b, p.g, p.r]);
            let ghost held = bytes_held(self.buf);
            let b = pop_byte(&mut self.buf);
            assert(held.drop_last().reverse() =~= seq![p.g, p.b, p.a]);
            assert(pixel_step(old(self).decoder(), self.decoder(), pr));
            return match b {
                Some(x) => Ok(Some(x)),
                None => Ok(None),
            };
        }
        let ghost held = bytes_held(self.buf);
        let b = pop_byte(&mut self.buf);
        assert(held.drop_last().reverse() =~= held.reverse().drop_first());
        match b {
            Some(x) => Ok(Some(x)),
            None => Ok(None),
        }
    }
}

/// Decoding the chunks of `s` from `pos` on, up to the end marker, from the given
/// cache and previous pixel.
#[verifier::opaque]
pub open spec fn dec_from(s: Seq<u8>, pos: int, cache: Seq<RgbaPixel>, prev: RgbaPixel) -> Result<
    Seq<RgbaPixel>,
    DecodeError,
>
    decreases s.len() - pos,
    via dec_from_decreases
{
    match parse_at(s, pos) {
        Err(e) => Err(e),
        Ok(None) => Ok(seq![]),
        Ok(Some((c, next))) => {
            let (cache2, prev2, out) = dec_step(cache, prev, c);
            match dec_from(s, next, cache2, prev2) {
                Ok(rest) => Ok(out + rest),
                Err(e) => Err(e),
            }
        },
    }
}

#[via_fn]
proof fn dec_from_decreases(s: Seq<u8>, pos: int, cache: Seq<RgbaPixel>, prev: RgbaPixel) {
    lemma_parse_advances(s, pos);
}

/// A chunk read from `pos` ends after `pos` and within `s`.
pub proof fn lemma_parse_advances(s: Seq<u8>, pos: int)
    ensures
        parse_at(s, pos) matches Ok(Some((_c, next))) ==> pos < next <= s.len(),
{
    reveal(parse_at);
}

/// Decoding a whole QOI buffer: its header and its pixels.
pub open spec fn decoded(s: Seq<u8>) -> Result<(Header, Seq<RgbaPixel>), DecodeError> {
    if !(s.len() >= 4 && s.subrange(0, 4) == magic()) {
        Err(DecodeError::InvalidMagic)
    } else if s.len() < 14 {
        Err(DecodeError::Truncated)
    } else {
        match dec_from(s, 14, Seq::new(64, |_i: int| opaque_black()), opaque_black()) {
            Ok(ps) => Ok((header_at(s, 4), ps)),
            Err(e) => Err(e),
        }
    }
}

/// `xs` followed by the pixels of `res`, or the error of `res`.
pub open spec fn then_pixels(xs: Seq<RgbaPixel>, res: Result<Seq<RgbaPixel>, DecodeError>) -> Result<
    Seq<RgbaPixel>,
    DecodeError,
> {
    match res {
        Ok(rest) => Ok(xs + rest),
        Err(e) => Err(e),
    }
}

/// What is left to decode for a decoder in the middle of `s`: the pixels of its
/// pending run, then those of the chunks from its position on.
pub open spec fn dec_rest(
    s: Seq<u8>,
    pos: int,
    cache: Seq<RgbaPixel>,
    prev: RgbaPixel,
    run: nat,
) -> Result<Seq<RgbaPixel>, DecodeError> {
    then_pixels(Seq::new(run, |_i: int| prev), dec_from(s, pos, cache, prev))
}

proof fn lemma_then_pixels_push(xs: Seq<RgbaPixel>, p: RgbaPixel, res: Result<Seq<RgbaPixel>, DecodeError>)
    ensures
        then_pixels(xs, then_pixels(seq![p], res)) == then_pixels(xs.push(p), res),
{
    if let Ok(rest) = res {
        assert(xs + (seq![p] + rest) =~= xs.push(p) + rest);
    }
}

proof fn lemma_dec_rest_run(s: Seq<u8>, pos: int, cache: Seq<RgbaPixel>, prev: RgbaPixel, run: nat)
    requires
        run > 0,
    ensures
        dec_rest(s, pos, cache, prev, run) == then_pixels(
            seq![prev],
            dec_rest(s, pos, cache, prev, (run - 1) as nat),
        ),
{
    reveal(dec_from);
    reveal(parse_at);
    if let Ok(rest) = dec_from(s, pos, cache, prev) {
        assert(Seq::new(run, |_i: int| prev) + rest =~= seq![prev] + (Seq::new(
            (run - 1) as nat,
            |_i: int| prev,
        ) + rest));
    }
}

proof fn lemma_dec_rest_chunk(s: Seq<u8>, pos: int, cache: Seq<RgbaPixel>, prev: RgbaPixel)
    requires
        parse_at(s, pos) is Ok,
    ensures
        match parse_at(s, pos) {
            Ok(None) => dec_rest(s, pos, cache, prev, 0) == Ok::<Seq<RgbaPixel>, DecodeError>(
                seq![],
            ),
            Ok(Some((c, next))) => {
                let (cache2, prev2, more) = dec_step(cache, prev, c);
                &&& more.len() >= 1
                &&& dec_rest(s, pos, cache, prev, 0) == then_pixels(
                    seq![prev2],
                    dec_rest(s, next, cache2, prev2, (more.len() - 1) as nat),
                )
            },
            _ => true,
        },
{
    reveal(dec_from);
    reveal(parse_at);
    match parse_at(s, pos) {
        Ok(None) => {
            assert(Seq::<RgbaPixel>::new(0, |_i: int| prev) + seq![] =~= seq![]);
        },
        Ok(Some((c, next))) => {
            let (cache2, prev2, more) = dec_step(cache, prev, c);
            assert(more =~= seq![prev2] + Seq::new((more.len() - 1) as nat, |_i: int| prev2));
            if let Ok(rest) = dec_from(s, next, cache2, prev2) {
                assert(Seq::new(0, |_i: int| prev) + (more + rest) =~= seq![prev2] + (Seq::new(
                    (more.len() - 1) as nat,
                    |_i: int| prev2,
                ) + rest));
            }
        },
        _ => {},
    }
}

proof fn lemma_dec_rest_err(s: Seq<u8>, pos: int, cache: Seq<RgbaPixel>, prev: RgbaPixel)
    requires
        parse_at(s, pos) is Err,
    ensures
        parse_at(s, pos) matches Err(e) && dec_rest(s, pos, cache, prev, 0) == Err::<
            Seq<RgbaPixel>,
            DecodeError,
        >(e),
{
    reveal(dec_from);
    reveal(parse_at);
}

/// Decodes a whole QOI buffer into its header and its pixels, up to the end marker.
#[verifier::rlimit(30)]
pub fn decode(bytes: &[u8]) -> (r: Result<(Header, Vec<RgbaPixel>), DecodeError>)
    ensures
        match decoded(bytes@) {
            Ok((h, ps)) => r matches Ok((h2, v)) && h2 == h && v@ == ps,
            Err(e) => r matches Err(e2) && e2 == e,
        },
{
    let (header, reader) = match SliceReader::start(bytes) {
        Ok(x) => x,
        Err(e) => return Err(e),
    };
    let ghost s = bytes@;
    let ghost whole = dec_from(s, 14, Seq::new(64, |_i: int| opaque_black()), opaque_black());
    let mut d = reader.into_decoder();
    let mut out: Vec<RgbaPixel> = Vec::new();
    proof {
        if let Ok(ps) = whole {
            assert(Seq::<RgbaPixel>::empty() + (Seq::new(0, |_i: int| opaque_black()) + ps) =~= ps);
        }
    }
    loop
        invariant_except_break
            whole == then_pixels(out@, dec_rest(s, d.reader().pos(), d.cache(), d.previous(), d.run())),
        invariant
            d.wf(),
            s == bytes@,
            d.reader().bytes() == s,
            header == header_at(s, 4),
            decoded(s) == match whole {
                Ok(ps) => Ok::<(Header, Seq<RgbaPixel>), DecodeError>((header, ps)),
                Err(e) => Err(e),
            },
        ensures
            whole == Ok::<Seq<RgbaPixel>, DecodeError>(out@),
        decreases s.len() - d.reader().pos(), d.run(),
    {
        let ghost pos = d.reader().pos();
        let ghost cache = d.cache();
        let ghost prev = d.previous();
        let ghost run = d.run();
        let ghost before = out@;
        proof {
            if run > 0 {
                lemma_dec_rest_run(s, pos, cache, prev, run);
            } else if parse_at(s, pos) is Ok {
                lemma_dec_rest_chunk(s, pos, cache, prev);
                lemma_parse_advances(s, pos);
            } else {
                lemma_dec_rest_err(s, pos, cache, prev);
            }
        }
        match d.next_pixel() {
            Err(e) => {
                assert(whole == Err::<Seq<RgbaPixel>, DecodeError>(e));
                return Err(e);
            },
            Ok(None) => {
                assert(before + seq![] =~= before);
                break;
            },
            Ok(Some(p)) => {
                out.push(p);
                proof {
                    lemma_then_pixels_push(before, p, dec_rest(s, d.reader().pos(), d.cache(), d.previous(), d.run()));
                }
            },
        }
    }
    Ok((header, out))
}

} // verus!
