//! Declarations of the outside types the driver handles, and the calls it
//! makes into heapless for its fixed-capacity line buffers.
use vstd::prelude::*;
use crate::protocol::LINE_CAPACITY;
use nb::Error as NbError;
use vstd::utf8::valid_utf8;

verus! {

#[verifier::external_type_specification]
#[verifier::reject_recursive_types(E)]
pub struct ExNbError<E>(NbError<E>);

#[verifier::external_type_specification]
#[verifier::external_body]
#[verifier::reject_recursive_types(T)]
pub struct ExHeaplessVec<T, const N: usize>(heapless::Vec<T, N>);

#[verifier::external_type_specification]
#[verifier::external_body]
pub struct ExHeaplessString<const N: usize>(heapless::String<N>);

#[verifier::external_type_specification]
#[verifier::external_body]
pub struct ExUtf8Error(core::str::Utf8Error);

/// The bytes held by a line buffer, oldest first.
pub uninterp spec fn buffer_bytes(v: heapless::Vec<u8, LINE_CAPACITY>) -> Seq<u8>;

/// The UTF-8 bytes of a bounded string.
pub uninterp spec fn text_bytes(s: heapless::String<LINE_CAPACITY>) -> Seq<u8>;

/// Relies on heapless::Vec::new: the new vector is empty.
#[verifier::external_body]
pub(crate) fn new_buffer() -> (r: heapless::Vec<u8, LINE_CAPACITY>)
    ensures
        buffer_bytes(r) == Seq::<u8>::empty(),
{
    heapless::Vec::new()
}

/// Relies on heapless::Vec::push: the byte is appended when the length is
/// below the capacity, and handed back with the vector unchanged otherwise.
#[verifier::external_body]
pub(crate) fn push_byte(v: &mut heapless::Vec<u8, LINE_CAPACITY>, b: u8) -> (r: Result<(), u8>)
    ensures
        r is Ok <==> buffer_bytes(*old(v)).len() < LINE_CAPACITY,
        r is Ok ==> buffer_bytes(*final(v)) == buffer_bytes(*old(v)).push(b),
        r matches Err(x) ==> x == b,
        r is Err ==> buffer_bytes(*final(v)) == buffer_bytes(*old(v)),
        buffer_bytes(*final(v)).len() <= LINE_CAPACITY,
{
    v.push(b)
}

/// Relies on heapless::String::from_utf8, which checks the bytes with
/// core::str::from_utf8: it succeeds exactly on valid UTF-8 and keeps the bytes.
#[verifier::external_body]
pub(crate) fn decode_text(v: heapless::Vec<u8, LINE_CAPACITY>) -> (r: Result<
    heapless::String<LINE_CAPACITY>,
    core::str::Utf8Error,
>)
    ensures
        r is Ok <==> valid_utf8(buffer_bytes(v)),
        r matches Ok(s) ==> text_bytes(s) == buffer_bytes(v),
{
    heapless::String::from_utf8(v)
}

} // verus!
