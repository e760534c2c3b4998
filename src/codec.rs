//! Laws that tie the encoder and the decoder together.
use vstd::prelude::*;
use crate::chunk::{Chunk, chunk_bytes, chunks_bytes};
use crate::decoder::{DecodeError, parse_at, end_marker_follows, dec_from, dec_chunks, dec_step, then_pixels};
use crate::pixel::{RgbaPixel, opaque_black, transparent_black, pixel_hash};
use crate::chunk::{delta_chunk, wrap_i8, wrap_u8};
use crate::decoder::{chunk_pixel, decoded};
use crate::encoder::{enc_pixels, enc_step, encoded_file};
use crate::header::{Header, header_bytes, magic, stream_end, lemma_header_round_trip};

verus! {

/// The bytes of a well-formed chunk read back as that chunk, unless an index chunk
/// of slot 0 is directly followed by the rest of the end marker.
pub proof fn lemma_parse_chunk_bytes(pre: Seq<u8>, c: Chunk, rest: Seq<u8>)
    requires
        c.wf(),
        c == (Chunk::Index { idx: 0 }) ==> !(rest.len() >= 7 && rest.subrange(0, 7)
            == stream_end().subrange(1, 8)),
    ensures
        parse_at(pre + chunk_bytes(c) + rest, pre.len() as int) == Ok::<
            Option<(Chunk, int)>,
            DecodeError,
        >(Some((c, (pre.len() + chunk_bytes(c).len()) as int))),
{
    reveal(parse_at);
    let s = pre + chunk_bytes(c) + rest;
    let p = pre.len() as int;
    let b = chunk_bytes(c);
    assert(s[p] == b[0]);
    match c {
        Chunk::Rgb { r, g, b: bb } => {
            assert(s[p + 1] == r && s[p + 2] == g && s[p + 3] == bb);
        },
        Chunk::Rgba { r, g, b: bb, a } => {
            assert(s[p + 1] == r && s[p + 2] == g && s[p + 3] == bb && s[p + 4] == a);
        },
        Chunk::Index { idx } => {
            if idx == 0 && end_marker_follows(s, p) {
                assert(s.subrange(p + 1, p + 8) =~= rest.subrange(0, 7));
            }
        },
        Chunk::Diff { dr, dg, db } => {
            let t = s[p] as int;
            assert(t == 0x40 + (dr + 2) * 16 + (dg + 2) * 4 + (db + 2));
            assert((t / 16) % 4 - 2 == dr && (t / 4) % 4 - 2 == dg && t % 4 - 2 == db) by (nonlinear_arith)
                requires
                    t == 0x40 + (dr + 2) * 16 + (dg + 2) * 4 + (db + 2),
                    -2 <= dr <= 1,
                    -2 <= dg <= 1,
                    -2 <= db <= 1,
            ;
        },
        Chunk::Luma { dg, dr_dg, db_dg } => {
            let t2 = s[p + 1] as int;
            assert(t2 == (dr_dg + 8) * 16 + (db_dg + 8));
            assert(t2 / 16 - 8 == dr_dg && t2 % 16 - 8 == db_dg) by (nonlinear_arith)
                requires
                    t2 == (dr_dg + 8) * 16 + (db_dg + 8),
                    -8 <= dr_dg <= 7,
                    -8 <= db_dg <= 7,
            ;
        },
        Chunk::Run { length } => {},
    }
}

/// The bytes of a chunk sequence split where the sequence is split.
pub proof fn lemma_chunks_bytes_append(a: Seq<Chunk>, b: Seq<Chunk>)
    ensures
        chunks_bytes(a + b) == chunks_bytes(a) + chunks_bytes(b),
    decreases b.len(),
{
    if b.len() == 0 {
        assert(a + b =~= a);
        assert(chunks_bytes(a) + chunks_bytes(b) =~= chunks_bytes(a));
    } else {
        assert((a + b).drop_last() =~= a + b.drop_last());
        lemma_chunks_bytes_append(a, b.drop_last());
        assert(chunks_bytes(a) + chunks_bytes(b) =~= chunks_bytes(a) + chunks_bytes(b.drop_last())
            + chunk_bytes(b.last()));
    }
}

/// Every chunk of `cs` is well formed.
pub open spec fn all_wf(cs: Seq<Chunk>) -> bool {
    forall|i: int| 0 <= i < cs.len() ==> (#[trigger] cs[i]).wf()
}

/// No index chunk of slot 0 directly follows another.
pub open spec fn no_double_index0(cs: Seq<Chunk>) -> bool {
    forall|i: int|
        0 <= i < cs.len() - 1 ==> !(#[trigger] cs[i] == (Chunk::Index { idx: 0 }) && cs[i + 1]
            == (Chunk::Index { idx: 0 }))
}

proof fn lemma_then_pixels_assoc(
    xs: Seq<RgbaPixel>,
    ys: Seq<RgbaPixel>,
    res: Result<Seq<RgbaPixel>, DecodeError>,
)
    ensures
        then_pixels(xs, then_pixels(ys, res)) == then_pixels(xs + ys, res),
{
    if let Ok(rest) = res {
        assert(xs + (ys + rest) =~= xs + ys + rest);
    }
}

proof fn lemma_chunks_bytes_single(c: Chunk)
    ensures
        chunks_bytes(seq![c]) == chunk_bytes(c),
{
    let one = seq![c];
    assert(one.drop_last() =~= Seq::<Chunk>::empty());
    assert(one.last() == c);
    assert(chunks_bytes(Seq::<Chunk>::empty()) == Seq::<u8>::empty());
    assert(chunks_bytes(one) == chunks_bytes(one.drop_last()) + chunk_bytes(one.last()));
    assert(Seq::<u8>::empty() + chunk_bytes(c) =~= chunk_bytes(c));
}

proof fn lemma_chunks_bytes_split(cs: Seq<Chunk>, j: int)
    requires
        0 <= j < cs.len(),
    ensures
        chunks_bytes(cs) == chunks_bytes(cs.take(j)) + chunk_bytes(cs[j]) + chunks_bytes(
            cs.skip(j + 1),
        ),
        chunks_bytes(cs.take(j + 1)) == chunks_bytes(cs.take(j)) + chunk_bytes(cs[j]),
{
    let a = cs.take(j);
    let c = cs[j];
    let b = cs.skip(j + 1);
    assert(cs =~= a + seq![c] + b);
    lemma_chunks_bytes_single(c);
    lemma_chunks_bytes_append(a, seq![c]);
    lemma_chunks_bytes_append(a + seq![c], b);
    assert(cs.take(j + 1) =~= a + seq![c]);
}

proof fn lemma_next_not_end_marker(b: Seq<Chunk>)
    requires
        b.len() > 0 ==> b[0].wf() && b[0] != (Chunk::Index { idx: 0 }),
    ensures
        !((chunks_bytes(b) + stream_end()).subrange(0, 7) == stream_end().subrange(1, 8)),
{
    let rest = chunks_bytes(b) + stream_end();
    if b.len() > 0 {
        assert(b =~= seq![b[0]] + b.skip(1));
        lemma_chunks_bytes_single(b[0]);
        lemma_chunks_bytes_append(seq![b[0]], b.skip(1));
        assert(rest[0] == chunk_bytes(b[0])[0]);
        assert(rest.subrange(0, 7)[0] != stream_end().subrange(1, 8)[0]);
    } else {
        assert(rest =~= stream_end());
        assert(rest.subrange(0, 7)[6] != stream_end().subrange(1, 8)[6]);
    }
}

proof fn lemma_dec_from_step(s: Seq<u8>, at: int, cache: Seq<RgbaPixel>, prev: RgbaPixel, c: Chunk, after: int)
    requires
        parse_at(s, at) == Ok::<Option<(Chunk, int)>, DecodeError>(Some((c, after))),
    ensures
        ({
            let (cache2, prev2, more) = dec_step(cache, prev, c);
            dec_from(s, at, cache, prev) == then_pixels(more, dec_from(s, after, cache2, prev2))
        }),
{
    reveal(dec_from);
}

/// Decoding a stream of encoded chunks, up to the end of its first `k` chunks.
proof fn lemma_dec_prefix(pre: Seq<u8>, cs: Seq<Chunk>, k: nat)
    requires
        k <= cs.len(),
        all_wf(cs),
        no_double_index0(cs),
    ensures
        ({
            let s = pre + chunks_bytes(cs) + stream_end();
            let (cache, prev, out) = dec_chunks(cs.take(k as int));
            dec_from(s, pre.len() as int, Seq::new(64, |_i: int| opaque_black()), opaque_black())
                == then_pixels(
                out,
                dec_from(s, (pre.len() + chunks_bytes(cs.take(k as int)).len()) as int, cache, prev),
            )
        }),
    decreases k,
{
    let s = pre + chunks_bytes(cs) + stream_end();
    if k == 0 {
        assert(cs.take(0) =~= Seq::<Chunk>::empty());
        let x = dec_from(s, pre.len() as int, Seq::new(64, |_i: int| opaque_black()), opaque_black());
        if let Ok(rest) = x {
            assert(Seq::<RgbaPixel>::empty() + rest =~= rest);
        }
    } else {
        let j = (k - 1) as int;
        lemma_dec_prefix(pre, cs, (k - 1) as nat);
        let a = cs.take(j);
        let c = cs[j];
        let b = cs.skip(k as int);
        lemma_chunks_bytes_split(cs, j);
        let rest = chunks_bytes(b) + stream_end();
        let pre2 = pre + chunks_bytes(a);
        assert(s =~= pre2 + chunk_bytes(c) + rest);
        assert(cs[j].wf());
        if b.len() > 0 {
            assert(b[0] == cs[j + 1]);
            assert(cs[j + 1].wf());
        }
        if c == (Chunk::Index { idx: 0 }) {
            lemma_next_not_end_marker(b);
        }
        lemma_parse_chunk_bytes(pre2, c, rest);
        assert(cs.take(k as int).drop_last() =~= a);
        let (cache, prev, out) = dec_chunks(a);
        let (cache2, prev2, more) = dec_step(cache, prev, c);
        let at = (pre.len() + chunks_bytes(a).len()) as int;
        let after = (pre.len() + chunks_bytes(cs.take(k as int)).len()) as int;
        lemma_dec_from_step(s, at, cache, prev, c, after);
        lemma_then_pixels_assoc(out, more, dec_from(s, after, cache2, prev2));
    }
}

/// Decoding the bytes of well-formed chunks, with no two index chunks of slot 0 in a
/// row, and the end marker after them, gives the pixels the chunks stand for.
pub proof fn lemma_dec_chunk_stream(pre: Seq<u8>, cs: Seq<Chunk>)
    requires
        all_wf(cs),
        no_double_index0(cs),
    ensures
        dec_from(
            pre + chunks_bytes(cs) + stream_end(),
            pre.len() as int,
            Seq::new(64, |_i: int| opaque_black()),
            opaque_black(),
        ) == Ok::<Seq<RgbaPixel>, DecodeError>(dec_chunks(cs).2),
{
    let s = pre + chunks_bytes(cs) + stream_end();
    lemma_dec_prefix(pre, cs, cs.len());
    assert(cs.take(cs.len() as int) =~= cs);
    let (cache, prev, out) = dec_chunks(cs);
    let p = (pre.len() + chunks_bytes(cs).len()) as int;
    assert(s.subrange(p + 1, p + 8) =~= stream_end().subrange(1, 8));
    assert(s[p] == 0);
    assert(dec_from(s, p, cache, prev) == Ok::<Seq<RgbaPixel>, DecodeError>(seq![])) by {
        reveal(dec_from);
        reveal(parse_at);
    }
    assert(out + seq![] =~= out);
}

/// Decoding the chunk the encoder picks for a new pixel gives that pixel back.
pub proof fn lemma_delta_chunk_inverse(cache: Seq<RgbaPixel>, prev: RgbaPixel, p: RgbaPixel)
    ensures
        chunk_pixel(cache, prev, delta_chunk(prev, p)) == p,
        delta_chunk(prev, p).wf(),
        delta_chunk(prev, p) != (Chunk::Index { idx: 0 }),
{
    if p.a == prev.a {
        let dr = wrap_i8(p.r - prev.r);
        let dg = wrap_i8(p.g - prev.g);
        let db = wrap_i8(p.b - prev.b);
        let dr_dg = wrap_i8(dr - dg);
        let db_dg = wrap_i8(db - dg);
        assert(wrap_u8(prev.r + dr) == p.r);
        assert(wrap_u8(prev.g + dg) == p.g);
        assert(wrap_u8(prev.b + db) == p.b);
        assert(wrap_u8(prev.r + (dr_dg + dg)) == p.r);
        assert(wrap_u8(prev.b + (db_dg + dg)) == p.b);
    }
}

/// Some pixel of `ps` falls in cache slot 0 and is not transparent black.
pub open spec fn slot0_taken(ps: Seq<RgbaPixel>) -> bool {
    exists|j: int| 0 <= j < ps.len() && pixel_hash(#[trigger] ps[j]) == 0 && ps[j] != transparent_black()
}

/// Every transparent black pixel of `ps` comes after a pixel that falls in cache slot 0
/// and is not transparent black. Equivalently: the first pixel of `ps` that falls in
/// slot 0, if any, is not transparent black.
pub open spec fn no_early_transparent(ps: Seq<RgbaPixel>) -> bool {
    forall|k: int|
        0 <= k < ps.len() && #[trigger] ps[k] == transparent_black() ==> slot0_taken(ps.take(k))
}

/// The encoder's state after `q`, against the decoder's state after the chunks emitted
/// so far: same previous pixel, the decoded pixels plus the pending run make `q`, and
/// each cache slot agrees but for slots the encoder has never written.
pub open spec fn coupled(q: Seq<RgbaPixel>, total: nat) -> bool {
    let (ce, pe, run, cs) = enc_pixels(q, total);
    let (cd, pd, out) = dec_chunks(cs);
    &&& ce.len() == 64
    &&& cd.len() == 64
    &&& pd == pe
    &&& out + Seq::new(run, |_i: int| pe) == q
    &&& run < 62
    &&& (q.len() == total ==> run == 0)
    &&& (q.len() == 0 ==> pe == opaque_black())
    &&& (q.len() > 0 ==> pe == q.last())
    &&& forall|i: int|
        0 <= i < 64 ==> (#[trigger] ce[i] == cd[i] || (ce[i] == transparent_black() && (i != 0
            || !slot0_taken(q))))
    &&& all_wf(cs)
    &&& no_double_index0(cs)
    &&& (cs.len() > 0 && cs.last() == (Chunk::Index { idx: 0 }) ==> ce[0] == pe)
}

proof fn lemma_coupled_start(total: nat)
    ensures
        coupled(Seq::empty(), total),
{
    let q = Seq::<RgbaPixel>::empty();
    let (ce, pe, run, cs) = enc_pixels(q, total);
    assert(cs =~= Seq::<Chunk>::empty());
    let (cd, pd, out) = dec_chunks(cs);
    assert(out + Seq::new(run, |_i: int| pe) =~= q);
    assert forall|i: int| 0 <= i < 64 implies (#[trigger] ce[i] == cd[i] || (ce[i]
        == transparent_black() && (i != 0 || !slot0_taken(q)))) by {}
}

proof fn lemma_dec_chunks_push(cs: Seq<Chunk>, c: Chunk)
    ensures
        ({
            let (cache, prev, out) = dec_chunks(cs);
            let (cache2, prev2, more) = dec_step(cache, prev, c);
            dec_chunks(cs.push(c)) == (cache2, prev2, out + more)
        }),
{
    assert(cs.push(c).drop_last() =~= cs);
}

proof fn lemma_slot0_taken_push(q: Seq<RgbaPixel>, p: RgbaPixel)
    ensures
        slot0_taken(q.push(p)) == (slot0_taken(q) || (pixel_hash(p) == 0 && p
            != transparent_black())),
{
    let q2 = q.push(p);
    if slot0_taken(q) {
        let j = choose|j: int| 0 <= j < q.len() && pixel_hash(#[trigger] q[j]) == 0 && q[j] != transparent_black();
        assert(q2[j] == q[j]);
    }
    if pixel_hash(p) == 0 && p != transparent_black() {
        assert(q2[q.len() as int] == p);
    }
    if slot0_taken(q2) {
        let j = choose|j: int| 0 <= j < q2.len() && pixel_hash(#[trigger] q2[j]) == 0 && q2[j] != transparent_black();
        if j < q.len() {
            assert(q[j] == q2[j]);
        }
    }
}

#[verifier::spinoff_prover]
#[verifier::rlimit(40)]
proof fn lemma_coupled_repeat(q: Seq<RgbaPixel>, total: nat, p: RgbaPixel)
    requires
        coupled(q, total),
        q.len() < total,
        p == enc_pixels(q, total).1,
    ensures
        coupled(q.push(p), total),
{
    let q2 = q.push(p);
    assert(q2.drop_last() =~= q);
    let (ce, pe, run, cs) = enc_pixels(q, total);
    let (cd, pd, out) = dec_chunks(cs);
    let last = q2.len() == total;
    let (ce2, run2, more) = enc_step(ce, pe, run, last, p);
    lemma_slot0_taken_push(q, p);
    if q.len() > 0 {
        assert(q[q.len() - 1] == q.last());
        lemma_slot0_taken_push(q.drop_last(), q.last());
        assert(q.drop_last().push(q.last()) =~= q);
    }
    if run + 1 == 62 || last {
        lemma_dec_chunks_push(cs, Chunk::Run { length: (run + 1) as u8 });
        assert(cs.push(Chunk::Run { length: (run + 1) as u8 }) =~= cs + more);
        assert(out + Seq::new(run + 1, |_i: int| pe) =~= q2) by {
            assert(q =~= out + Seq::new(run, |_i: int| pe));
        }
        let cs2 = cs + more;
        assert(dec_chunks(cs2).2 + Seq::new(0, |_i: int| p) =~= dec_chunks(cs2).2);
        assert forall|i: int| 0 <= i < cs2.len() implies (#[trigger] cs2[i]).wf() by {
            if i < cs.len() {
                assert(cs2[i] == cs[i]);
            }
        }
        assert forall|i: int| 0 <= i < cs2.len() - 1 implies !(#[trigger] cs2[i] == (Chunk::Index {
            idx: 0,
        }) && cs2[i + 1] == (Chunk::Index { idx: 0 })) by {
            if i + 1 < cs.len() {
                assert(cs2[i] == cs[i] && cs2[i + 1] == cs[i + 1]);
            }
        }
    } else {
        assert(cs + more =~= cs);
        assert(out + Seq::new(run + 1, |_i: int| pe) =~= q2) by {
            assert(q =~= out + Seq::new(run, |_i: int| pe));
        }
    }
}

#[verifier::spinoff_prover]
#[verifier::rlimit(80)]
proof fn lemma_coupled_new(q: Seq<RgbaPixel>, total: nat, p: RgbaPixel)
    requires
        coupled(q, total),
        q.len() < total,
        p != enc_pixels(q, total).1,
        p == transparent_black() ==> slot0_taken(q),
    ensures
        coupled(q.push(p), total),
{
    let q2 = q.push(p);
    assert(q2.drop_last() =~= q);
    let (ce, pe, run, cs) = enc_pixels(q, total);
    let (cd, pd, out) = dec_chunks(cs);
    let last = q2.len() == total;
    let (ce2, run2, more) = enc_step(ce, pe, run, last, p);
    lemma_slot0_taken_push(q, p);
    let flushed = if run > 0 {
        seq![Chunk::Run { length: run as u8 }]
    } else {
        seq![]
    };
    let cs1 = cs + flushed;
    // after the flushed run, the decoder has produced exactly `q`
    if run > 0 {
        assert(cs1 =~= cs.push(Chunk::Run { length: run as u8 }));
        lemma_dec_chunks_push(cs, Chunk::Run { length: run as u8 });
    } else {
        assert(cs1 =~= cs);
        assert(out =~= out + Seq::new(run, |_i: int| pe));
    }
    let (cd1, pd1, out1) = dec_chunks(cs1);
    assert(cd1 == cd && pd1 == pe && out1 == q);
    let slot = pixel_hash(p) as int;
    let x = more.last();
    assert(more =~= flushed.push(x));
    assert(cs + more =~= cs1.push(x));
    lemma_dec_chunks_push(cs1, x);
    let cs2 = cs + more;
    if ce[slot] == p {
        assert(ce[slot] == cd[slot] || (ce[slot] == transparent_black() && (slot != 0
            || !slot0_taken(q))));
        assert(cd[slot] == p);
        assert(x == Chunk::Index { idx: slot as u8 });
        assert(cd.update(slot, p) =~= cd);
    } else {
        lemma_delta_chunk_inverse(cd, pe, p);
        assert(x == delta_chunk(pe, p));
    }
    let (cd2, pd2, out2) = dec_chunks(cs2);
    assert(pd2 == p);
    assert(out2 =~= q2);
    assert(out2 + Seq::new(0, |_i: int| p) =~= q2);
    assert forall|i: int| 0 <= i < 64 implies (#[trigger] ce2[i] == cd2[i] || (ce2[i]
        == transparent_black() && (i != 0 || !slot0_taken(q2)))) by {
        if i != slot {
            assert(ce[i] == cd[i] || (ce[i] == transparent_black() && (i != 0
                || !slot0_taken(q))));
        }
    }
    assert forall|i: int| 0 <= i < cs2.len() implies (#[trigger] cs2[i]).wf() by {
        if i < cs.len() {
            assert(cs2[i] == cs[i]);
        }
    }
    assert forall|i: int| 0 <= i < cs2.len() - 1 implies !(#[trigger] cs2[i] == (Chunk::Index {
        idx: 0,
    }) && cs2[i + 1] == (Chunk::Index { idx: 0 })) by {
        if i + 1 < cs.len() {
            assert(cs2[i] == cs[i] && cs2[i + 1] == cs[i + 1]);
        } else if i + 1 == cs.len() && run == 0 && cs.len() > 0 {
            assert(cs2[i] == cs.last());
        }
    }
}

proof fn lemma_coupled_prefix(ps: Seq<RgbaPixel>, n: nat)
    requires
        n <= ps.len(),
        no_early_transparent(ps),
    ensures
        coupled(ps.take(n as int), ps.len()),
    decreases n,
{
    if n == 0 {
        assert(ps.take(0) =~= Seq::<RgbaPixel>::empty());
        lemma_coupled_start(ps.len());
    } else {
        let k = (n - 1) as int;
        lemma_coupled_prefix(ps, (n - 1) as nat);
        let q = ps.take(k);
        let p = ps[k];
        assert(ps.take(n as int) =~= q.push(p));
        if p == enc_pixels(q, ps.len()).1 {
            lemma_coupled_repeat(q, ps.len(), p);
        } else {
            if p == transparent_black() {
                assert(slot0_taken(ps.take(k)));
            }
            lemma_coupled_new(q, ps.len(), p);
        }
    }
}

/// Decoding the encoded file of an image gives back its header and its pixels, for
/// every pixel sequence of width × height pixels whose first pixel in cache slot 0,
/// if it has one, is not transparent black. (On the others the two directions part:
/// the encoder's cache starts transparent black, the decoder's opaque black.)
pub proof fn lemma_round_trip(h: Header, ps: Seq<RgbaPixel>)
    requires
        ps.len() == h.pixel_count(),
        no_early_transparent(ps),
    ensures
        decoded(encoded_file(h, ps)) == Ok::<(Header, Seq<RgbaPixel>), DecodeError>((h, ps)),
{
    let total = ps.len();
    lemma_coupled_prefix(ps, total);
    assert(ps.take(total as int) =~= ps);
    let (ce, pe, run, cs) = enc_pixels(ps, total);
    let (cd, pd, out) = dec_chunks(cs);
    assert(out =~= out + Seq::new(run, |_i: int| pe));
    let pre = magic() + header_bytes(h);
    let s = encoded_file(h, ps);
    assert(s =~= pre + chunks_bytes(cs) + stream_end());
    lemma_dec_chunk_stream(pre, cs);
    assert(s =~= magic() + header_bytes(h) + (chunks_bytes(cs) + stream_end()));
    lemma_header_round_trip(magic(), h, chunks_bytes(cs) + stream_end());
    assert(s.subrange(0, 4) =~= magic());
}

/// A pixel that differs from the previous one and sits in its cache slot is encoded as
/// an index chunk of that slot, after the pending run if there is one.
pub proof fn lemma_cached_pixel_gives_index(
    cache: Seq<RgbaPixel>,
    prev: RgbaPixel,
    run: nat,
    last: bool,
    p: RgbaPixel,
)
    requires
        cache.len() == 64,
        p != prev,
        cache[pixel_hash(p) as int] == p,
    ensures
        enc_step(cache, prev, run, last, p).2.last() == (Chunk::Index {
            idx: pixel_hash(p) as u8,
        }),
        enc_step(cache, prev, run, last, p).2.len() == if run > 0 {
            2int
        } else {
            1int
        },
{
}

/// A new pixel whose alpha differs from the previous pixel's, and which misses the
/// cache, is encoded as a full RGBA chunk whatever its colour.
pub proof fn lemma_alpha_change_gives_rgba(
    cache: Seq<RgbaPixel>,
    prev: RgbaPixel,
    run: nat,
    last: bool,
    p: RgbaPixel,
)
    requires
        cache.len() == 64,
        p.a != prev.a,
        cache[pixel_hash(p) as int] != p,
    ensures
        enc_step(cache, prev, run, last, p).2.last() == (Chunk::Rgba { r: p.r, g: p.g, b: p.b, a: p.a }),
{
}

} // verus!
