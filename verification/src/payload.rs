//! The byte views that fragments are made of.
//!
//! Payload is held in `bytes::Bytes`, a reference-counted view into a shared
//! allocation, so that splitting a fragment never copies. Nothing in this
//! module is proved: each function states, as its contract, what the `bytes`
//! crate documents of the call it makes.

use bytes::Buf;
use bytes::Bytes;
use bytes::BytesMut;
use vstd::prelude::*;

verus! {

/// `bytes::Bytes`, an immutable view into shared bytes. Its inside is not
/// looked into: contracts speak of what it holds through [`contents`].
#[verifier::external_type_specification]
#[verifier::external_body]
pub struct ExBytes(Bytes);

/// `bytes::BytesMut`, a buffer that bytes are written into. Its inside is
/// not looked into: contracts speak of what it holds through [`written`].
#[verifier::external_type_specification]
#[verifier::external_body]
pub struct ExBytesMut(BytesMut);

/// The bytes that a `Bytes` view holds, first to last.
pub uninterp spec fn contents(b: Bytes) -> Seq<u8>;

/// The bytes written so far into a `BytesMut`, first to last.
pub uninterp spec fn written(b: BytesMut) -> Seq<u8>;

/// `Bytes::len`: the number of bytes in the view.
#[verifier::external_body]
pub(crate) fn len(b: &Bytes) -> (n: usize)
    ensures
        n == contents(*b).len(),
{
    b.len()
}

/// `Bytes::split_to`: the view keeps the bytes from `at` on and hands out
/// the `at` bytes before them. The call panics when `at` is past the end,
/// which the precondition rules out.
#[verifier::external_body]
pub(crate) fn split_to(b: &mut Bytes, at: usize) -> (head: Bytes)
    requires
        at <= contents(*old(b)).len(),
    ensures
        contents(head) == contents(*old(b)).subrange(0, at as int),
        contents(*final(b)) == contents(*old(b)).subrange(at as int, contents(*old(b)).len() as int),
{
    b.split_to(at)
}

/// `Buf::advance` on `Bytes`: the first `cnt` bytes leave the view. The call
/// panics when fewer than `cnt` bytes remain, which the precondition rules
/// out.
#[verifier::external_body]
pub(crate) fn advance(b: &mut Bytes, cnt: usize)
    requires
        cnt <= contents(*old(b)).len(),
    ensures
        contents(*final(b)) == contents(*old(b)).subrange(cnt as int, contents(*old(b)).len() as int),
{
    b.advance(cnt)
}

/// `AsRef<[u8]>` of `Bytes`: the view's bytes as a slice, nothing copied.
#[verifier::external_body]
pub(crate) fn as_slice(b: &Bytes) -> (s: &[u8])
    ensures
        s@ == contents(*b),
{
    b.as_ref()
}

/// `BytesMut::with_capacity`: a buffer with nothing written to it. The call
/// panics when asked for more than `isize::MAX` bytes, which the
/// precondition rules out.
#[verifier::external_body]
pub(crate) fn with_capacity(capacity: usize) -> (buf: BytesMut)
    requires
        capacity <= isize::MAX,
    ensures
        written(buf) == Seq::<u8>::empty(),
{
    BytesMut::with_capacity(capacity)
}

/// `BytesMut::len`: the number of bytes written so far.
#[verifier::external_body]
pub(crate) fn written_len(buf: &BytesMut) -> (n: usize)
    ensures
        n == written(*buf).len(),
{
    buf.len()
}

/// `BytesMut::extend_from_slice`: the slice's bytes are copied to the end of
/// what was written. The buffer grows as a `Vec` does, and so panics past
/// `isize::MAX` bytes, which the precondition rules out.
#[verifier::external_body]
pub(crate) fn extend_from_slice(buf: &mut BytesMut, src: &[u8])
    requires
        written(*old(buf)).len() + src@.len() <= isize::MAX,
    ensures
        written(*final(buf)) == written(*old(buf)) + src@,
{
    buf.extend_from_slice(src)
}

/// `BytesMut::split`: everything written so far is handed out, and the
/// buffer is left with nothing written.
#[verifier::external_body]
pub(crate) fn split(buf: &mut BytesMut) -> (taken: BytesMut)
    ensures
        written(taken) == written(*old(buf)),
        written(*final(buf)) == Seq::<u8>::empty(),
{
    buf.split()
}

/// `BytesMut::freeze`: the same bytes as an immutable, shareable view.
#[verifier::external_body]
pub(crate) fn freeze(buf: BytesMut) -> (b: Bytes)
    ensures
        contents(b) == written(buf),
{
    buf.freeze()
}

} // verus!
