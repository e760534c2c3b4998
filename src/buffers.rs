//! The fixed-capacity buffers of the codec, held in `arrayvec::ArrayVec`: the up to
//! two chunks the encoder emits for one pixel, and the four bytes of one pixel.
use vstd::prelude::*;
use arrayvec::ArrayVec;
use crate::chunk::Chunk;

verus! {

#[verifier::external_type_specification]
#[verifier::external_body]
#[verifier::reject_recursive_types(T)]
pub struct ExArrayVec<T, const CAP: usize>(ArrayVec<T, CAP>);

/// The chunks a two-chunk buffer holds, in order.
pub uninterp spec fn chunks_held(v: ArrayVec<Chunk, 2>) -> Seq<Chunk>;

/// The bytes a four-byte buffer holds, in order.
pub uninterp spec fn bytes_held(v: ArrayVec<u8, 4>) -> Seq<u8>;

/// Relies on `ArrayVec::new_const`: a new buffer holds nothing.
#[verifier::external_body]
pub(crate) fn empty_chunks() -> (v: ArrayVec<Chunk, 2>)
    ensures
        chunks_held(v) == Seq::<Chunk>::empty(),
{
    ArrayVec::new_const()
}

/// Relies on `ArrayVec::push`: appends `c` at the end; it panics on a full buffer,
/// which `requires` leaves out.
#[verifier::external_body]
pub(crate) fn push_chunk(v: &mut ArrayVec<Chunk, 2>, c: Chunk)
    requires
        chunks_held(*old(v)).len() < 2,
    ensures
        chunks_held(*final(v)) == chunks_held(*old(v)).push(c),
{
    v.push(c)
}

/// Relies on `ArrayVec::len`: the number of chunks held.
#[verifier::external_body]
pub(crate) fn chunk_count(v: &ArrayVec<Chunk, 2>) -> (n: usize)
    ensures
        n == chunks_held(*v).len(),
{
    v.len()
}

/// Relies on `ArrayVec::as_slice`: the slice of the chunks held, in order.
#[verifier::external_body]
pub(crate) fn chunk_at(v: &ArrayVec<Chunk, 2>, i: usize) -> (c: Chunk)
    requires
        i < chunks_held(*v).len(),
    ensures
        c == chunks_held(*v)[i as int],
{
    v.as_slice()[i]
}

/// Relies on `ArrayVec::new_const`: a new buffer holds nothing.
#[verifier::external_body]
pub(crate) fn empty_bytes() -> (v: ArrayVec<u8, 4>)
    ensures
        bytes_held(v) == Seq::<u8>::empty(),
{
    ArrayVec::new_const()
}

/// Relies on `From<[T; CAP]> for ArrayVec<T, CAP>`: the buffer holds the array's
/// elements, in order.
#[verifier::external_body]
pub(crate) fn bytes_from_array(a: [u8; 4]) -> (v: ArrayVec<u8, 4>)
    ensures
        bytes_held(v) == a@,
{
    ArrayVec::from(a)
}

/// Relies on `ArrayVec::is_empty`: whether the buffer holds nothing.
#[verifier::external_body]
pub(crate) fn bytes_empty(v: &ArrayVec<u8, 4>) -> (b: bool)
    ensures
        b == (bytes_held(*v).len() == 0),
{
    v.is_empty()
}

/// Relies on `ArrayVec::pop`: removes and returns the last byte, `None` when empty.
#[verifier::external_body]
pub(crate) fn pop_byte(v: &mut ArrayVec<u8, 4>) -> (r: Option<u8>)
    ensures
        bytes_held(*old(v)).len() == 0 ==> r is None && bytes_held(*final(v)) == bytes_held(
            *old(v),
        ),
        bytes_held(*old(v)).len() > 0 ==> r == Some(bytes_held(*old(v)).last()) && bytes_held(
            *final(v),
        ) == bytes_held(*old(v)).drop_last(),
{
    v.pop()
}

} // verus!
