//! The byte storage behind the string arena: an append-only buffer and the
//! shareable views that are cut from it. Both come from `append_only_bytes`;
//! what this module states about them is taken on trust from that crate.

use append_only_bytes::AppendOnlyBytes;
use append_only_bytes::BytesSlice;
use vstd::prelude::*;
use vstd::string::StringSliceAdditionalSpecFns;
use vstd::utf8::valid_utf8;

verus! {

#[verifier::external_type_specification]
#[verifier::external_body]
pub struct ExAppendOnlyBytes(append_only_bytes::AppendOnlyBytes);

#[verifier::external_type_specification]
#[verifier::external_body]
pub struct ExBytesSlice(append_only_bytes::BytesSlice);

/// The bytes a buffer holds, in the order in which they were appended.
pub uninterp spec fn pool_bytes(pool: AppendOnlyBytes) -> Seq<u8>;

/// The bytes a view shows.
pub uninterp spec fn slice_bytes(slice: BytesSlice) -> Seq<u8>;

/// The offset at which a view begins in the buffer it was cut from: what
/// `BytesSlice::start` returns.
pub uninterp spec fn slice_offset(slice: BytesSlice) -> nat;

/// The largest number of bytes a buffer is ever asked to hold. Growth doubles
/// the capacity, so this keeps every requested capacity within what an
/// allocation may ask for on any machine.
pub const POOL_LIMIT: usize = 0x4000_0000;

/// `AppendOnlyBytes::new`: a fresh buffer holds nothing.
pub assume_specification[ AppendOnlyBytes::new ]() -> (pool: AppendOnlyBytes)
    ensures
        pool_bytes(pool) == Seq::<u8>::empty(),
;

/// `AppendOnlyBytes::as_bytes`: everything appended so far.
pub assume_specification<'a>[ AppendOnlyBytes::as_bytes ](pool: &'a AppendOnlyBytes) -> (bytes:
    &'a [u8])
    ensures
        bytes@ == pool_bytes(*pool),
;

/// `AppendOnlyBytes::push_str`: appends the UTF-8 bytes of `text` and leaves
/// every earlier byte where it was.
pub assume_specification[ AppendOnlyBytes::push_str ](pool: &mut AppendOnlyBytes, text: &str)
    requires
        pool_bytes(*old(pool)).len() + text.spec_bytes().len() <= POOL_LIMIT,
    ensures
        pool_bytes(*final(pool)) == pool_bytes(*old(pool)) + text.spec_bytes(),
;

/// `AppendOnlyBytes::slice` over `start..end`: a view of exactly those bytes,
/// which remembers where it starts.
#[verifier::external_body]
pub(crate) fn pool_slice(pool: &AppendOnlyBytes, start: usize, end: usize) -> (slice: BytesSlice)
    requires
        start <= end <= pool_bytes(*pool).len(),
    ensures
        slice_bytes(slice) == pool_bytes(*pool).subrange(start as int, end as int),
        slice_offset(slice) == start,
{
    pool.slice(start..end)
}

/// `AppendOnlyBytes::slice_str` over `start..end`: those bytes read as text.
/// The call succeeds exactly when they are well-formed UTF-8.
#[verifier::external_body]
pub(crate) fn pool_text(pool: &AppendOnlyBytes, start: usize, end: usize) -> (text: Option<&str>)
    requires
        start <= end <= pool_bytes(*pool).len(),
    ensures
        text is Some <==> valid_utf8(pool_bytes(*pool).subrange(start as int, end as int)),
        text matches Some(s) ==> s.spec_bytes() == pool_bytes(*pool).subrange(
            start as int,
            end as int,
        ),
{
    pool.slice_str(start..end).ok()
}

/// `BytesSlice::as_bytes`: the bytes the view shows.
pub assume_specification<'a>[ BytesSlice::as_bytes ](slice: &'a BytesSlice) -> (bytes: &'a [u8])
    ensures
        bytes@ == slice_bytes(*slice),
;

/// `BytesSlice::len`: the number of bytes the view shows.
pub assume_specification[ BytesSlice::len ](slice: &BytesSlice) -> (n: usize)
    ensures
        n == slice_bytes(*slice).len(),
;

/// `BytesSlice::slice_clone` over `start..end`: a narrower view into the same
/// buffer.
#[verifier::external_body]
pub(crate) fn slice_part(slice: &BytesSlice, start: usize, end: usize) -> (part: BytesSlice)
    requires
        start <= end <= slice_bytes(*slice).len(),
    ensures
        slice_bytes(part) == slice_bytes(*slice).subrange(start as int, end as int),
        slice_offset(part) == slice_offset(*slice) + start,
{
    slice.slice_clone(start..end)
}

/// `BytesSlice::clone`: a second view of the same bytes at the same place.
pub assume_specification[ <BytesSlice as Clone>::clone ](slice: &BytesSlice) -> (copy: BytesSlice)
    ensures
        slice_bytes(copy) == slice_bytes(*slice),
        slice_offset(copy) == slice_offset(*slice),
;

/// `BytesSlice::slice_str` over the whole view: the bytes read as text. The
/// call succeeds exactly when the bytes are well-formed UTF-8.
#[verifier::external_body]
pub(crate) fn slice_text(slice: &BytesSlice) -> (text: Option<&str>)
    ensures
        text is Some <==> valid_utf8(slice_bytes(*slice)),
        text matches Some(s) ==> s.spec_bytes() == slice_bytes(*slice),
{
    slice.slice_str(..).ok()
}

/// `std::str::from_utf8`: the bytes read as text. The call succeeds exactly
/// when they are well-formed UTF-8.
#[verifier::external_body]
pub(crate) fn bytes_as_text(bytes: &[u8]) -> (text: Option<&str>)
    ensures
        text is Some <==> valid_utf8(bytes@),
        text matches Some(s) ==> s.spec_bytes() == bytes@,
{
    std::str::from_utf8(bytes).ok()
}

} // verus!
