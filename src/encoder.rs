//! The encoder: turns RGBA pixels into a QOI chunk stream.
use vstd::prelude::*;
use crate::chunk::{Chunk, chunk_bytes, chunks_bytes, delta_chunk, delta_chunk_of, MAX_RUN};
use crate::header::{Header, header_bytes, magic, stream_end};
use crate::pixel::{RgbaPixel, PixelCache, pixel_hash, opaque_black, transparent_black};
use crate::buffers::{chunks_held, empty_chunks, push_chunk, chunk_count, chunk_at};
use arrayvec::ArrayVec;

verus! {

/// Why an image could not be encoded.
#[derive(Clone, Copy, Debug, PartialEq, Eq, Structural)]
pub enum EncodeError {
    /// The number of pixels differs from width × height of the header.
    LengthMismatch,
}

/// Encoding one pixel: the new cache, the new pending run, and the chunks emitted.
/// `last` says whether this is the final pixel of the image.
pub open spec fn enc_step(
    cache: Seq<RgbaPixel>,
    prev: RgbaPixel,
    run: nat,
    last: bool,
    p: RgbaPixel,
) -> (Seq<RgbaPixel>, nat, Seq<Chunk>) {
    if p == prev {
        if run + 1 == 62 || last {
            (cache, 0, seq![Chunk::Run { length: (run + 1) as u8 }])
        } else {
            (cache, run + 1, seq![])
        }
    } else {
        let flushed = if run > 0 {
            seq![Chunk::Run { length: run as u8 }]
        } else {
            seq![]
        };
        let slot = pixel_hash(p) as int;
        if cache[slot] == p {
            (cache, 0, flushed.push(Chunk::Index { idx: slot as u8 }))
        } else {
            (cache.update(slot, p), 0, flushed.push(delta_chunk(prev, p)))
        }
    }
}

/// Encoding the pixels `ps` of an image of `total` pixels from the encoder's starting
/// state: the cache, the previous pixel, the pending run, and the chunks emitted.
pub open spec fn enc_pixels(ps: Seq<RgbaPixel>, total: nat) -> (
    Seq<RgbaPixel>,
    RgbaPixel,
    nat,
    Seq<Chunk>,
)
    decreases ps.len(),
{
    if ps.len() == 0 {
        (Seq::new(64, |_i: int| transparent_black()), opaque_black(), 0, seq![])
    } else {
        let (cache, prev, run, out) = enc_pixels(ps.drop_last(), total);
        let (cache2, run2, more) = enc_step(cache, prev, run, ps.len() == total, ps.last());
        (cache2, ps.last(), run2, out + more)
    }
}

/// The bytes of a whole QOI file for `h` and `ps`.
pub open spec fn encoded_file(h: Header, ps: Seq<RgbaPixel>) -> Seq<u8> {
    magic() + header_bytes(h) + chunks_bytes(enc_pixels(ps, ps.len()).3) + stream_end()
}

/// A QOI encoder.
pub struct Encoder {
    previously_seen: PixelCache,
    previous: RgbaPixel,
    run: u8,
    index: u64,
    length: u64,
    header: Header,
}

impl Encoder {
    /// The header of the image being encoded.
    pub closed spec fn header_spec(&self) -> Header {
        self.header
    }

    /// The header of the image being encoded.
    pub fn header(&self) -> (h: Header)
        ensures
            h == self.header_spec(),
    {
        self.header
    }

    pub closed spec fn cache(&self) -> Seq<RgbaPixel> {
        self.previously_seen@
    }

    pub closed spec fn previous(&self) -> RgbaPixel {
        self.previous
    }

    /// The number of repeats of the previous pixel not yet written out.
    pub closed spec fn run(&self) -> nat {
        self.run as nat
    }

    /// The number of pixels processed so far.
    pub closed spec fn index(&self) -> nat {
        self.index as nat
    }

    /// The number of pixels of the image, width × height.
    pub closed spec fn length(&self) -> nat {
        self.length as nat
    }

    pub open spec fn wf(&self) -> bool {
        &&& self.cache().len() == 64
        &&& self.run() < 62
        &&& self.index() <= self.length()
        &&& self.length() == self.header_spec().pixel_count()
    }

    /// Whether no pixel has been processed yet.
    pub open spec fn is_fresh(&self) -> bool {
        &&& self.cache() == Seq::new(64, |_i: int| transparent_black())
        &&& self.previous() == opaque_black()
        &&& self.run() == 0
        &&& self.index() == 0
    }

    /// An encoder for an image described by `header`.
    pub fn new(header: Header) -> (e: Encoder)
        ensures
            e.wf(),
            e.is_fresh(),
            e.header_spec() == header,
    {
        let w = header.width as u64;
        let h = header.height as u64;
        assert(w * h <= 0xffff_ffffu64 * 0xffff_ffffu64) by (nonlinear_arith)
            requires
                w <= 0xffff_ffff,
                h <= 0xffff_ffff,
        ;
        let length = w * h;
        Encoder {
            previously_seen: PixelCache::for_encoder(),
            previous: RgbaPixel { r: 0, g: 0, b: 0, a: 255 },
            run: 0,
            index: 0,
            length,
            header,
        }
    }

    /// Processes the next pixel of the image, emitting up to two chunks.
    pub fn process_pixel(&mut self, pixel: RgbaPixel) -> (out: ArrayVec<Chunk, 2>)
        requires
            old(self).wf(),
            old(self).index() < old(self).length(),
        ensures
            final(self).wf(),
            final(self).header_spec() == old(self).header_spec(),
            final(self).index() == old(self).index() + 1,
            final(self).length() == old(self).length(),
            final(self).previous() == pixel,
            ({
                let (cache2, run2, chunks) = enc_step(
                    old(self).cache(),
                    old(self).previous(),
                    old(self).run(),
                    old(self).index() + 1 == old(self).length(),
                    pixel,
                );
                &&& chunks_held(out) == chunks
                &&& final(self).cache() == cache2
                &&& final(self).run() == run2
            }),
            forall|i: int| 0 <= i < chunks_held(out).len() ==> (#[trigger] chunks_held(out)[i]).wf(),
    {
        let mut output = empty_chunks();
        self.index = self.index + 1;

        if pixel == self.previous {
            self.run = self.run + 1;
            if self.run == MAX_RUN || self.index == self.length {
                push_chunk(&mut output, Chunk::Run { length: self.run });
                self.run = 0;
            }
            self.previous = pixel;
            return output;
        }

        if self.run > 0 {
            push_chunk(&mut output, Chunk::Run { length: self.run });
            self.run = 0;
        }

        let index_pos = pixel.index_position();
        if self.previously_seen.get(index_pos) == pixel {
            push_chunk(&mut output, Chunk::Index { idx: index_pos });
            self.previous = pixel;
            return output;
        }

        self.previously_seen.put(pixel);
        push_chunk(&mut output, delta_chunk_of(self.previous, pixel));
        self.previous = pixel;
        output
    }

    /// Encodes `image`, the image's pixels in order, into the bytes of a QOI file.
    pub fn image_to_vec(self, image: &[RgbaPixel]) -> (r: Result<Vec<u8>, EncodeError>)
        requires
            self.wf(),
            self.is_fresh(),
        ensures
            image@.len() != self.header_spec().pixel_count() ==> r == Err::<Vec<u8>, EncodeError>(
                EncodeError::LengthMismatch,
            ),
            image@.len() == self.header_spec().pixel_count() ==> (r matches Ok(v) && v@
                == encoded_file(self.header_spec(), image@)),
    {
        if image.len() as u64 != self.length {
            return Err(EncodeError::LengthMismatch);
        }
        let mut enc = self;
        let ghost total = image@.len();
        let ghost header = enc.header;
        let mut out: Vec<u8> = Vec::new();
        out.push(0x71);
        out.push(0x6f);
        out.push(0x69);
        out.push(0x66);
        assert(out@ =~= magic());
        enc.header.write_to_vec(&mut out);
        let ghost head = out@;
        let mut i: usize = 0;
        while i < image.len()
            invariant
                0 <= i <= image@.len(),
                total == image@.len(),
                total == enc.length(),
                enc.wf(),
                enc.index() == i,
                enc.header_spec() == header,
                head == magic() + header_bytes(enc.header_spec()),
                ({
                    let (cache, prev, run, chunks) = enc_pixels(image@.take(i as int), total);
                    &&& enc.cache() == cache
                    &&& enc.previous() == prev
                    &&& enc.run() == run
                    &&& out@ == head + chunks_bytes(chunks)
                }),
            decreases image@.len() - i,
        {
            let ghost before = enc_pixels(image@.take(i as int), total).3;
            let chunks = enc.process_pixel(image[i]);
            let n = chunk_count(&chunks);
            assert(image@.take(i + 1).drop_last() =~= image@.take(i as int));
            let mut j: usize = 0;
            while j < n
                invariant
                    0 <= j <= n,
                    n == chunks_held(chunks).len(),
                    forall|k: int| 0 <= k < chunks_held(chunks).len() ==> (#[trigger] chunks_held(chunks)[k]).wf(),
                    out@ == head + chunks_bytes(before + chunks_held(chunks).take(j as int)),
                decreases n - j,
            {
                let c = chunk_at(&chunks, j);
                c.write_to_vec(&mut out);
                assert((before + chunks_held(chunks).take(j + 1)).drop_last() =~= before + chunks_held(chunks).take(j as int));
                j = j + 1;
            }
            assert(chunks_held(chunks).take(j as int) =~= chunks_held(chunks));
            i = i + 1;
        }
        assert(image@.take(i as int) =~= image@);
        let ghost body = out@;
        out.push(0);
        out.push(0);
        out.push(0);
        out.push(0);
        out.push(0);
        out.push(0);
        out.push(0);
        out.push(1);
        assert(out@ =~= body + stream_end());
        assert(out@ =~= encoded_file(header, image@));
        Ok(out)
    }
}

/// Encodes the pixels of an image described by `header` into the bytes of a QOI file.
pub fn encode(header: Header, image: &[RgbaPixel]) -> (r: Result<Vec<u8>, EncodeError>)
    ensures
        image@.len() != header.pixel_count() ==> r == Err::<Vec<u8>, EncodeError>(
            EncodeError::LengthMismatch,
        ),
        image@.len() == header.pixel_count() ==> (r matches Ok(v) && v@ == encoded_file(
            header,
            image@,
        )),
{
    Encoder::new(header).image_to_vec(image)
}

} // verus!
