//! The fixed-capacity receive buffer: a `heapless::Vec` of bytes, held
//! behind trusted wrappers whose contracts speak of [`buf_bytes`], the
//! sequence of bytes the buffer holds.

use vstd::prelude::*;

verus! {

/// Capacity of the ingress receive buffer, in bytes.
pub const BUF_LEN: usize = 256;

#[verifier::external_type_specification]
#[verifier::external_body]
#[verifier::reject_recursive_types(T)]
pub struct ExHeaplessVec<T, const N: usize>(heapless::Vec<T, N>);

/// The bytes held by the receive buffer, front to back.
pub uninterp spec fn buf_bytes(v: heapless::Vec<u8, BUF_LEN>) -> Seq<u8>;

/// Relies on `heapless::Vec::new`: the new vector is empty.
#[verifier::external_body]
pub(crate) fn buf_new() -> (v: heapless::Vec<u8, BUF_LEN>)
    ensures
        buf_bytes(v) == Seq::<u8>::empty(),
{
    heapless::Vec::new()
}

/// Relies on `[u8]::len` reached through `heapless::Vec`'s `Deref` to a
/// slice of its elements: the number of bytes held.
#[verifier::external_body]
pub(crate) fn buf_len(v: &heapless::Vec<u8, BUF_LEN>) -> (n: usize)
    ensures
        n as int == buf_bytes(*v).len(),
{
    v.len()
}

/// Relies on `heapless::Vec::capacity`: the capacity is the const
/// parameter the vector was declared with.
#[verifier::external_body]
pub(crate) fn buf_capacity(v: &heapless::Vec<u8, BUF_LEN>) -> (n: usize)
    ensures
        n == BUF_LEN,
{
    v.capacity()
}

/// Relies on `heapless::Vec::extend_from_slice`: appends all of `data`,
/// or errors without modifying anything when the result would not fit in
/// the capacity.
#[verifier::external_body]
pub(crate) fn buf_extend(v: &mut heapless::Vec<u8, BUF_LEN>, data: &[u8]) -> (r: bool)
    ensures
        buf_bytes(*old(v)).len() + data@.len() <= BUF_LEN ==> r && buf_bytes(*final(v))
            == buf_bytes(*old(v)) + data@,
        buf_bytes(*old(v)).len() + data@.len() > BUF_LEN ==> !r && buf_bytes(*final(v))
            == buf_bytes(*old(v)),
{
    v.extend_from_slice(data).is_ok()
}

/// Relies on `heapless::Vec::clear`: removes all bytes.
#[verifier::external_body]
pub(crate) fn buf_clear(v: &mut heapless::Vec<u8, BUF_LEN>)
    ensures
        buf_bytes(*final(v)) == Seq::<u8>::empty(),
{
    v.clear()
}

/// Relies on `heapless::Vec::as_slice`: a slice of exactly the bytes held.
#[verifier::external_body]
pub(crate) fn buf_as_slice(v: &heapless::Vec<u8, BUF_LEN>) -> (s: &[u8])
    ensures
        s@ == buf_bytes(*v),
{
    v.as_slice()
}

/// Relies on `[u8]::rotate_left` reached through `heapless::Vec`'s
/// `DerefMut` to a slice of its elements: rotates the bytes so that the
/// byte at `mid` comes first.
#[verifier::external_body]
pub(crate) fn buf_rotate_left(v: &mut heapless::Vec<u8, BUF_LEN>, mid: usize)
    requires
        mid as int <= buf_bytes(*old(v)).len(),
    ensures
        buf_bytes(*final(v)) == buf_bytes(*old(v)).skip(mid as int) + buf_bytes(*old(v)).take(
            mid as int,
        ),
{
    v.rotate_left(mid)
}

/// Relies on `heapless::Vec::truncate`: keeps the first `len` bytes and
/// drops the rest; does nothing when `len` exceeds the length.
#[verifier::external_body]
pub(crate) fn buf_truncate(v: &mut heapless::Vec<u8, BUF_LEN>, len: usize)
    ensures
        buf_bytes(*final(v)) == if len as int <= buf_bytes(*old(v)).len() {
            buf_bytes(*old(v)).take(len as int)
        } else {
            buf_bytes(*old(v))
        },
{
    v.truncate(len)
}

} // verus!
