//! The two byte containers of the `bytes` crate, and numbers as bytes.
//!
//! `Bytes` and `BytesMut` hold every payload in this crate. What each of them
//! holds is a sequence of bytes, written `b@`. The functions that reach into
//! the outside crate are all here; nothing is proved of their bodies, and each
//! says what it claims of the function it calls. None of them speaks of running
//! out of memory, which ends the process as it does for a `Vec`.

use bytes::{Buf, BufMut, Bytes, BytesMut};
use vstd::prelude::*;

verus! {

/// `bytes::Bytes`: a shared, immutable run of bytes.
#[verifier::external_type_specification]
#[verifier::external_body]
pub struct ExBytes(bytes::Bytes);

/// `bytes::BytesMut`: a run of bytes that grows at its end and is consumed
/// from its start.
#[verifier::external_type_specification]
#[verifier::external_body]
pub struct ExBytesMut(bytes::BytesMut);

/// The bytes a `Bytes` holds, in order.
pub uninterp spec fn held(b: Bytes) -> Seq<u8>;

/// The bytes a `BytesMut` holds, in order.
pub uninterp spec fn buffered(b: BytesMut) -> Seq<u8>;

/// Gives the two containers their `@`.
pub trait Contents {
    spec fn view(&self) -> Seq<u8>;
}

impl Contents for Bytes {
    open spec fn view(&self) -> Seq<u8> {
        held(*self)
    }
}

impl Contents for BytesMut {
    open spec fn view(&self) -> Seq<u8> {
        buffered(*self)
    }
}

/// `Bytes::clone`: another handle on the same bytes.
pub assume_specification[ <Bytes as Clone>::clone ](b: &Bytes) -> (copy: Bytes)
    ensures
        held(copy) == held(*b),
;

/// `Bytes::new`: holds nothing.
pub assume_specification[ Bytes::new ]() -> (b: Bytes)
    ensures
        held(b) == Seq::<u8>::empty(),
;

/// `BytesMut::new`: holds nothing.
pub assume_specification[ BytesMut::new ]() -> (b: BytesMut)
    ensures
        buffered(b) == Seq::<u8>::empty(),
;

/// `BytesMut::freeze`: the same bytes, no longer growable.
pub assume_specification[ BytesMut::freeze ](b: BytesMut) -> (frozen: Bytes)
    ensures
        held(frozen) == buffered(b),
;

/// `BytesMut::split_to`: takes the first `at` bytes off. Panics past the end.
pub assume_specification[ BytesMut::split_to ](b: &mut BytesMut, at: usize) -> (taken: BytesMut)
    requires
        at <= buffered(*old(b)).len(),
    ensures
        buffered(taken) == buffered(*old(b)).subrange(0, at as int),
        buffered(*final(b)) == buffered(*old(b)).skip(at as int),
;

/// `BytesMut::split`: takes everything, and leaves nothing.
pub assume_specification[ BytesMut::split ](b: &mut BytesMut) -> (taken: BytesMut)
    ensures
        buffered(taken) == buffered(*old(b)),
        buffered(*final(b)) == Seq::<u8>::empty(),
;

/// `BytesMut::extend_from_slice`: appends.
pub assume_specification[ BytesMut::extend_from_slice ](b: &mut BytesMut, extend: &[u8])
    ensures
        buffered(*final(b)) == buffered(*old(b)) + extend@,
;

/// `Bytes::deref`: the bytes, borrowed.
#[verifier::external_body]
pub(crate) fn octets(b: &Bytes) -> (out: &[u8])
    ensures
        out@ == held(*b),
{
    b
}

/// `BytesMut::deref`: the bytes, borrowed.
#[verifier::external_body]
pub(crate) fn pending(b: &BytesMut) -> (out: &[u8])
    ensures
        out@ == buffered(*b),
{
    b
}

/// `Bytes::slice` on `from..to`: a handle on that part of the bytes. Panics
/// where the range does not lie inside them.
#[verifier::external_body]
pub(crate) fn slice(b: &Bytes, from: usize, to: usize) -> (part: Bytes)
    requires
        from <= to <= held(*b).len(),
    ensures
        held(part) == held(*b).subrange(from as int, to as int),
{
    b.slice(from..to)
}

/// `Bytes::from` on a `String`: the bytes of its UTF-8 encoding.
#[verifier::external_body]
pub(crate) fn text_bytes(text: String) -> (b: Bytes)
    ensures
        held(b) == vstd::utf8::encode_utf8(text@),
{
    Bytes::from(text)
}

/// `Buf::advance` on a `BytesMut`: drops the first `count` bytes. Panics past
/// the end.
#[verifier::external_body]
pub(crate) fn advance(b: &mut BytesMut, count: usize)
    requires
        count <= buffered(*old(b)).len(),
    ensures
        buffered(*final(b)) == buffered(*old(b)).skip(count as int),
{
    b.advance(count)
}

/// `BufMut::put_slice` on a `BytesMut`: appends.
#[verifier::external_body]
pub(crate) fn put_slice(b: &mut BytesMut, src: &[u8])
    ensures
        buffered(*final(b)) == buffered(*old(b)) + src@,
{
    b.put_slice(src)
}

/// `BufMut::put_u8` on a `BytesMut`: appends one byte.
#[verifier::external_body]
pub(crate) fn put_u8(b: &mut BytesMut, value: u8)
    ensures
        buffered(*final(b)) == buffered(*old(b)).push(value),
{
    b.put_u8(value)
}

/// `BufMut::put_u16` on a `BytesMut`: appends two bytes, the higher first.
#[verifier::external_body]
pub(crate) fn put_u16(b: &mut BytesMut, value: u16)
    ensures
        buffered(*final(b)) == buffered(*old(b)) + be16(value as int),
{
    b.put_u16(value)
}

/// `BufMut::put_u32` on a `BytesMut`: appends four bytes, the highest first.
#[verifier::external_body]
pub(crate) fn put_u32(b: &mut BytesMut, value: u32)
    ensures
        buffered(*final(b)) == buffered(*old(b)) + be32(value as int),
{
    b.put_u32(value)
}

/// `BufMut::put_u32_le` on a `BytesMut`: appends four bytes, the lowest first.
#[verifier::external_body]
pub(crate) fn put_u32_le(b: &mut BytesMut, value: u32)
    ensures
        buffered(*final(b)) == buffered(*old(b)) + le32(value as int),
{
    b.put_u32_le(value)
}

/// `BufMut::put_u64` on a `BytesMut`: appends eight bytes, the highest first.
#[verifier::external_body]
pub(crate) fn put_u64(b: &mut BytesMut, value: u64)
    ensures
        buffered(*final(b)) == buffered(*old(b)) + be64(value as int),
{
    b.put_u64(value)
}

/// The low two bytes of a number, the higher first.
#[verifier::opaque]
pub open spec fn be16(n: int) -> Seq<u8> {
    seq![(n / 0x100 % 0x100) as u8, (n % 0x100) as u8]
}

/// The low three bytes of a number, the highest first.
#[verifier::opaque]
pub open spec fn be24(n: int) -> Seq<u8> {
    seq![(n / 0x1_0000 % 0x100) as u8, (n / 0x100 % 0x100) as u8, (n % 0x100) as u8]
}

/// The low four bytes of a number, the highest first.
#[verifier::opaque]
pub open spec fn be32(n: int) -> Seq<u8> {
    seq![
        (n / 0x100_0000 % 0x100) as u8,
        (n / 0x1_0000 % 0x100) as u8,
        (n / 0x100 % 0x100) as u8,
        (n % 0x100) as u8,
    ]
}

/// The low two bytes of a number, the lower first.
#[verifier::opaque]
pub open spec fn le16(n: int) -> Seq<u8> {
    seq![(n % 0x100) as u8, (n / 0x100 % 0x100) as u8]
}

/// The low four bytes of a number, the lowest first.
#[verifier::opaque]
pub open spec fn le32(n: int) -> Seq<u8> {
    seq![
        (n % 0x100) as u8,
        (n / 0x100 % 0x100) as u8,
        (n / 0x1_0000 % 0x100) as u8,
        (n / 0x100_0000 % 0x100) as u8,
    ]
}

/// The low eight bytes of a number, the highest first.
#[verifier::opaque]
pub open spec fn be64(n: int) -> Seq<u8> {
    be32(n / 0x1_0000_0000) + be32(n % 0x1_0000_0000)
}

/// How many bytes a number is written in.
pub broadcast proof fn lemma_widths(n: int)
    ensures
        #![trigger be16(n)]
        #![trigger be24(n)]
        #![trigger be32(n)]
        #![trigger le16(n)]
        #![trigger le32(n)]
        #![trigger be64(n)]
        be16(n).len() == 2,
        be24(n).len() == 3,
        be32(n).len() == 4,
        le16(n).len() == 2,
        le32(n).len() == 4,
        be64(n).len() == 8,
{
    reveal(be16);
    reveal(be24);
    reveal(be32);
    reveal(le16);
    reveal(le32);
    reveal(be64);
}

/// The number two bytes write, the higher first.
pub open spec fn num16(s: Seq<u8>, at: int) -> int {
    s[at] * 0x100 + s[at + 1]
}

/// The number three bytes write, the highest first.
pub open spec fn num24(s: Seq<u8>, at: int) -> int {
    s[at] * 0x1_0000 + s[at + 1] * 0x100 + s[at + 2]
}

/// The number four bytes write, the highest first.
pub open spec fn num32(s: Seq<u8>, at: int) -> int {
    s[at] * 0x100_0000 + s[at + 1] * 0x1_0000 + s[at + 2] * 0x100 + s[at + 3]
}

/// The number four bytes write, the lowest first.
pub open spec fn num32_le(s: Seq<u8>, at: int) -> int {
    s[at] + s[at + 1] * 0x100 + s[at + 2] * 0x1_0000 + s[at + 3] * 0x100_0000
}

/// The number eight bytes write, the highest first.
pub open spec fn num64(s: Seq<u8>, at: int) -> int {
    num32(s, at) * 0x1_0000_0000 + num32(s, at + 4)
}

/// A number written in two bytes reads back.
pub proof fn lemma_be16(n: int)
    requires
        0 <= n < 0x1_0000,
    ensures
        num16(be16(n), 0) == n,
{
    reveal(be16);
}

/// A number written in three bytes reads back.
pub proof fn lemma_be24(n: int)
    requires
        0 <= n < 0x100_0000,
    ensures
        num24(be24(n), 0) == n,
{
    reveal(be24);
}

/// A number written in four bytes reads back.
pub proof fn lemma_be32(n: int)
    requires
        0 <= n < 0x1_0000_0000,
    ensures
        num32(be32(n), 0) == n,
{
    reveal(be32);
    let (a, b, c, d) = (n / 0x100_0000, n / 0x1_0000, n / 0x100, n);
    assert(b / 0x100 == a && c / 0x100 == b && d / 0x100 == c);
}

/// A number written in four bytes, the lowest first, reads back.
pub proof fn lemma_le32(n: int)
    requires
        0 <= n < 0x1_0000_0000,
    ensures
        num32_le(le32(n), 0) == n,
{
    reveal(le32);
    let (a, b, c, d) = (n / 0x100_0000, n / 0x1_0000, n / 0x100, n);
    assert(b / 0x100 == a && c / 0x100 == b && d / 0x100 == c);
}

/// Two bytes of a number read back in the middle of a sequence.
pub proof fn lemma_num16_amid(before: Seq<u8>, n: int, after: Seq<u8>)
    requires
        0 <= n < 0x1_0000,
    ensures
        num16(before + be16(n) + after, before.len() as int) == n,
{
    lemma_be16(n);
    lemma_widths(n);
    let s = before + be16(n) + after;
    let at = before.len() as int;
    assert(s[at] == be16(n)[0] && s[at + 1] == be16(n)[1]);
}

/// Three bytes of a number read back in the middle of a sequence.
pub proof fn lemma_num24_amid(before: Seq<u8>, n: int, after: Seq<u8>)
    requires
        0 <= n < 0x100_0000,
    ensures
        num24(before + be24(n) + after, before.len() as int) == n,
{
    lemma_be24(n);
    lemma_widths(n);
    let s = before + be24(n) + after;
    let at = before.len() as int;
    assert(s[at] == be24(n)[0] && s[at + 1] == be24(n)[1] && s[at + 2] == be24(n)[2]);
}

/// Four bytes of a number read back in the middle of a sequence.
pub proof fn lemma_num32_amid(before: Seq<u8>, n: int, after: Seq<u8>)
    requires
        0 <= n < 0x1_0000_0000,
    ensures
        num32(before + be32(n) + after, before.len() as int) == n,
        num32_le(before + le32(n) + after, before.len() as int) == n,
{
    lemma_be32(n);
    lemma_le32(n);
    lemma_widths(n);
    let at = before.len() as int;
    let s = before + be32(n) + after;
    assert(s[at] == be32(n)[0] && s[at + 1] == be32(n)[1] && s[at + 2] == be32(n)[2] && s[at + 3]
        == be32(n)[3]);
    let s = before + le32(n) + after;
    assert(s[at] == le32(n)[0] && s[at + 1] == le32(n)[1] && s[at + 2] == le32(n)[2] && s[at + 3]
        == le32(n)[3]);
}

/// Eight bytes of a number read back in the middle of a sequence.
pub proof fn lemma_num64_amid(before: Seq<u8>, n: int, after: Seq<u8>)
    requires
        0 <= n < 0x1_0000_0000_0000_0000,
    ensures
        num64(before + be64(n) + after, before.len() as int) == n,
{
    let high = n / 0x1_0000_0000;
    let low = n % 0x1_0000_0000;
    let s = before + be64(n) + after;
    assert(be64(n) == be32(high) + be32(low)) by {
        reveal(be64);
    }
    lemma_widths(high);
    lemma_num32_amid(before, high, be32(low) + after);
    lemma_num32_amid(before + be32(high), low, after);
    assert(s =~= before + be32(high) + (be32(low) + after));
    assert(s =~= before + be32(high) + be32(low) + after);
}

/// Reads two bytes, the higher first.
pub(crate) fn get_u16(s: &[u8], at: usize) -> (n: u16)
    requires
        at + 2 <= s@.len(),
    ensures
        n == num16(s@, at as int),
{
    s[at] as u16 * 0x100 + s[at + 1] as u16
}

/// Reads three bytes, the highest first.
pub(crate) fn get_u24(s: &[u8], at: usize) -> (n: u32)
    requires
        at + 3 <= s@.len(),
    ensures
        n == num24(s@, at as int),
        n < 0x100_0000,
{
    s[at] as u32 * 0x1_0000 + s[at + 1] as u32 * 0x100 + s[at + 2] as u32
}

/// Reads four bytes, the highest first.
pub(crate) fn get_u32(s: &[u8], at: usize) -> (n: u32)
    requires
        at + 4 <= s@.len(),
    ensures
        n == num32(s@, at as int),
{
    s[at] as u32 * 0x100_0000 + s[at + 1] as u32 * 0x1_0000 + s[at + 2] as u32 * 0x100
        + s[at + 3] as u32
}

/// Reads four bytes, the lowest first.
pub(crate) fn get_u32_le(s: &[u8], at: usize) -> (n: u32)
    requires
        at + 4 <= s@.len(),
    ensures
        n == num32_le(s@, at as int),
{
    s[at] as u32 + s[at + 1] as u32 * 0x100 + s[at + 2] as u32 * 0x1_0000
        + s[at + 3] as u32 * 0x100_0000
}

/// Reads eight bytes, the highest first.
pub(crate) fn get_u64(s: &[u8], at: usize) -> (n: u64)
    requires
        at + 8 <= s@.len(),
    ensures
        n == num64(s@, at as int),
{
    let high: u32 = get_u32(s, at);
    assert(s.len() == s@.len());
    high as u64 * 0x1_0000_0000 + get_u32(s, at + 4) as u64
}

/// Appends three bytes, the highest first.
pub(crate) fn put_u24(b: &mut BytesMut, value: u32)
    ensures
        final(b)@ == old(b)@ + be24(value as int),
{
    put_u8(b, (value / 0x1_0000 % 0x100) as u8);
    put_u8(b, (value / 0x100 % 0x100) as u8);
    put_u8(b, (value % 0x100) as u8);
    assert(b@ =~= old(b)@ + be24(value as int)) by {
        reveal(be24);
    }
}

} // verus!
