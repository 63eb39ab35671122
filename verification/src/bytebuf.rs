//! The trusted boundary around the `bytes` buffers that carry the
//! accumulator and the payloads, and around `memchr`'s byte scan.  Each
//! wrapper states, over the two content views, exactly what the wrapped
//! call does; nothing else in the crate is taken on trust.

use vstd::prelude::*;

use bytes::Bytes;
use bytes::BytesMut;

verus! {

#[verifier::external_type_specification]
#[verifier::external_body]
pub struct ExBytesMut(BytesMut);

#[verifier::external_type_specification]
#[verifier::external_body]
pub struct ExBytes(Bytes);

/// The byte contents of a growable accumulator buffer.
pub uninterp spec fn buf_bytes(b: BytesMut) -> Seq<u8>;

/// The byte contents of a frozen, shared buffer.
pub uninterp spec fn shared_bytes(b: Bytes) -> Seq<u8>;

/// Relies on `BytesMut::len`: the number of bytes the buffer holds.
#[verifier::external_body]
pub(crate) fn buf_len(b: &BytesMut) -> (r: usize)
    ensures
        r == buf_bytes(*b).len(),
{
    b.len()
}

/// Relies on `BytesMut`'s deref to `[u8]`: the byte at index `i`.
#[verifier::external_body]
pub(crate) fn buf_byte(b: &BytesMut, i: usize) -> (r: u8)
    requires
        i < buf_bytes(*b).len(),
    ensures
        r == buf_bytes(*b)[i as int],
{
    b[i]
}

/// Relies on `BytesMut::extend_from_slice`: appends the slice's bytes.
#[verifier::external_body]
pub(crate) fn buf_extend(b: &mut BytesMut, s: &[u8])
    ensures
        buf_bytes(*final(b)) == buf_bytes(*old(b)) + s@,
{
    b.extend_from_slice(s)
}

/// Relies on `BytesMut::reserve`: capacity only, the contents stay as they
/// are.
#[verifier::external_body]
pub(crate) fn buf_reserve(b: &mut BytesMut, additional: usize)
    ensures
        buf_bytes(*final(b)) == buf_bytes(*old(b)),
{
    b.reserve(additional)
}

/// Relies on `BytesMut::split_to`: removes and returns the first `at`
/// bytes; it panics only when `at` exceeds the length, which the
/// precondition rules out.
#[verifier::external_body]
pub(crate) fn buf_split_to(b: &mut BytesMut, at: usize) -> (r: BytesMut)
    requires
        at <= buf_bytes(*old(b)).len(),
    ensures
        buf_bytes(r) == buf_bytes(*old(b)).take(at as int),
        buf_bytes(*final(b)) == buf_bytes(*old(b)).skip(at as int),
{
    b.split_to(at)
}

/// Relies on `BytesMut::freeze`: the same bytes in shared form.
#[verifier::external_body]
pub(crate) fn buf_freeze(b: BytesMut) -> (r: Bytes)
    ensures
        shared_bytes(r) == buf_bytes(b),
{
    b.freeze()
}

/// Relies on `Bytes::slice`: the bytes of the range `[start, end)`, shared
/// with the original storage; it panics only out of range, which the
/// precondition rules out.
#[verifier::external_body]
pub(crate) fn shared_slice(b: &Bytes, start: usize, end: usize) -> (r: Bytes)
    requires
        start <= end <= shared_bytes(*b).len(),
    ensures
        shared_bytes(r) == shared_bytes(*b).subrange(start as int, end as int),
{
    b.slice(start..end)
}

/// Relies on `Bytes`'s deref to `[u8]`: a borrowed view of the same bytes.
#[verifier::external_body]
pub(crate) fn shared_as_slice(b: &Bytes) -> (r: &[u8])
    ensures
        r@ == shared_bytes(*b),
{
    b
}

/// Relies on `memchr::memchr` over the buffer's tail from `pos`: the index,
/// relative to `pos`, of the first occurrence of `needle`, or `None` when
/// the tail holds none.
#[verifier::external_body]
pub(crate) fn find_byte_from(needle: u8, b: &BytesMut, pos: usize) -> (r: Option<usize>)
    requires
        pos <= buf_bytes(*b).len(),
    ensures
        match r {
            Some(i) => pos + i < buf_bytes(*b).len() && buf_bytes(*b)[pos + i] == needle
                && forall|j: int| pos <= j < pos + i ==> buf_bytes(*b)[j] != needle,
            None => forall|j: int| pos <= j < buf_bytes(*b).len() ==> buf_bytes(*b)[j] != needle,
        },
{
    memchr::memchr(needle, &b[pos..])
}

} // verus!
