//! Big-endian reads from a byte buffer and UTF-8 text helpers.

use byteorder::{BigEndian, ByteOrder};
use crate::class::ParseError;
use vstd::prelude::*;
use vstd::string::StringSliceAdditionalSpecFns;

verus! {

/// The big-endian `u16` spelled by the two bytes of `b` at `p`.
pub open spec fn be16(b: Seq<u8>, p: int) -> int {
    b[p] as int * 0x100 + b[p + 1] as int
}

/// The big-endian `u32` spelled by the four bytes of `b` at `p`.
pub open spec fn be32(b: Seq<u8>, p: int) -> int {
    be16(b, p) * 0x1_0000 + be16(b, p + 2)
}

/// The big-endian `u64` spelled by the eight bytes of `b` at `p`.
pub open spec fn be64(b: Seq<u8>, p: int) -> int {
    be32(b, p) * 0x1_0000_0000 + be32(b, p + 4)
}

/// The two's-complement reading of a 32-bit pattern `u`.
pub open spec fn signed32(u: int) -> int {
    if u < 0x8000_0000 {
        u
    } else {
        u - 0x1_0000_0000
    }
}

/// The two's-complement reading of a 64-bit pattern `u`.
pub open spec fn signed64(u: int) -> int {
    if u < 0x8000_0000_0000_0000 {
        u
    } else {
        u - 0x1_0000_0000_0000_0000
    }
}

/// `ByteOrder::read_u16` of `BigEndian` on the bytes of `buf` from `pos` on:
/// the number that the two bytes at `pos` spell, most significant first.
#[verifier::external_body]
fn read_be_u16(buf: &[u8], pos: usize) -> (r: u16)
    requires
        pos + 2 <= buf@.len(),
    ensures
        r == be16(buf@, pos as int),
{
    BigEndian::read_u16(&buf[pos..])
}

/// `ByteOrder::read_u32` of `BigEndian` on the bytes of `buf` from `pos` on:
/// the number that the four bytes at `pos` spell, most significant first.
#[verifier::external_body]
fn read_be_u32(buf: &[u8], pos: usize) -> (r: u32)
    requires
        pos + 4 <= buf@.len(),
    ensures
        r == be32(buf@, pos as int),
{
    BigEndian::read_u32(&buf[pos..])
}

/// `ByteOrder::read_u64` of `BigEndian` on the bytes of `buf` from `pos` on:
/// the number that the eight bytes at `pos` spell, most significant first.
#[verifier::external_body]
fn read_be_u64(buf: &[u8], pos: usize) -> (r: u64)
    requires
        pos + 8 <= buf@.len(),
    ensures
        r == be64(buf@, pos as int),
{
    BigEndian::read_u64(&buf[pos..])
}

/// `ByteOrder::read_i32` of `BigEndian` on the bytes of `buf` from `pos` on:
/// the four bytes at `pos`, most significant first, read as a two's-complement number.
#[verifier::external_body]
fn read_be_i32(buf: &[u8], pos: usize) -> (r: i32)
    requires
        pos + 4 <= buf@.len(),
    ensures
        r == signed32(be32(buf@, pos as int)),
{
    BigEndian::read_i32(&buf[pos..])
}

/// `ByteOrder::read_i64` of `BigEndian` on the bytes of `buf` from `pos` on:
/// the eight bytes at `pos`, most significant first, read as a two's-complement number.
#[verifier::external_body]
fn read_be_i64(buf: &[u8], pos: usize) -> (r: i64)
    requires
        pos + 8 <= buf@.len(),
    ensures
        r == signed64(be64(buf@, pos as int)),
{
    BigEndian::read_i64(&buf[pos..])
}

/// True when `b` holds `w` bytes from offset `pos` on.
pub open spec fn has_bytes(b: Seq<u8>, pos: int, w: int) -> bool {
    pos + w <= b.len()
}

/// Whether the `w` bytes from `pos` on lie within `b`, without overflow.
fn fits(b: &[u8], pos: usize, w: usize) -> (r: bool)
    ensures
        r == has_bytes(b@, pos as int, w as int),
{
    pos <= b.len() && b.len() - pos >= w
}

/// The byte at `pos`; where there is none, `IOError` at the end of the bytes.
pub(crate) fn read_u8_at(b: &[u8], pos: usize) -> (r: Result<u8, (ParseError, usize)>)
    ensures
        r == (if has_bytes(b@, pos as int, 1) {
            Ok(b@[pos as int])
        } else {
            Err((ParseError::IOError, b.len()))
        }),
{
    if fits(b, pos, 1) {
        Ok(b[pos])
    } else {
        Err((ParseError::IOError, b.len()))
    }
}

/// The big-endian `u16` at `pos`; where the bytes run out, `IOError` at their end.
pub(crate) fn read_u16_at(b: &[u8], pos: usize) -> (r: Result<u16, (ParseError, usize)>)
    ensures
        r == (if has_bytes(b@, pos as int, 2) {
            Ok(be16(b@, pos as int) as u16)
        } else {
            Err((ParseError::IOError, b.len()))
        }),
{
    if fits(b, pos, 2) {
        Ok(read_be_u16(b, pos))
    } else {
        Err((ParseError::IOError, b.len()))
    }
}

/// The big-endian `u32` at `pos`; where the bytes run out, `IOError` at their end.
pub(crate) fn read_u32_at(b: &[u8], pos: usize) -> (r: Result<u32, (ParseError, usize)>)
    ensures
        r == (if has_bytes(b@, pos as int, 4) {
            Ok(be32(b@, pos as int) as u32)
        } else {
            Err((ParseError::IOError, b.len()))
        }),
{
    if fits(b, pos, 4) {
        Ok(read_be_u32(b, pos))
    } else {
        Err((ParseError::IOError, b.len()))
    }
}

/// The big-endian `u64` at `pos`; where the bytes run out, `IOError` at their end.
pub(crate) fn read_u64_at(b: &[u8], pos: usize) -> (r: Result<u64, (ParseError, usize)>)
    ensures
        r == (if has_bytes(b@, pos as int, 8) {
            Ok(be64(b@, pos as int) as u64)
        } else {
            Err((ParseError::IOError, b.len()))
        }),
{
    if fits(b, pos, 8) {
        Ok(read_be_u64(b, pos))
    } else {
        Err((ParseError::IOError, b.len()))
    }
}

/// The big-endian two's-complement `i32` at `pos`; where the bytes run out, `IOError` at their end.
pub(crate) fn read_i32_at(b: &[u8], pos: usize) -> (r: Result<i32, (ParseError, usize)>)
    ensures
        r == (if has_bytes(b@, pos as int, 4) {
            Ok(signed32(be32(b@, pos as int)) as i32)
        } else {
            Err((ParseError::IOError, b.len()))
        }),
{
    if fits(b, pos, 4) {
        Ok(read_be_i32(b, pos))
    } else {
        Err((ParseError::IOError, b.len()))
    }
}

/// The big-endian two's-complement `i64` at `pos`; where the bytes run out, `IOError` at their end.
pub(crate) fn read_i64_at(b: &[u8], pos: usize) -> (r: Result<i64, (ParseError, usize)>)
    ensures
        r == (if has_bytes(b@, pos as int, 8) {
            Ok(signed64(be64(b@, pos as int)) as i64)
        } else {
            Err((ParseError::IOError, b.len()))
        }),
{
    if fits(b, pos, 8) {
        Ok(read_be_i64(b, pos))
    } else {
        Err((ParseError::IOError, b.len()))
    }
}

/// Why reading a value from a byte buffer stopped: a failure, with the offset at which
/// reading stopped, or a refusal of the bytes.
pub(crate) enum ReadError {
    Failed(ParseError, usize),
    Refused,
}

/// A failed read as a `ReadError`.
pub(crate) fn lift<T>(r: Result<T, (ParseError, usize)>) -> (s: Result<T, ReadError>)
    ensures
        match r {
            Ok(v) => s matches Ok(w) && w == v,
            Err((e, at)) => s matches Err(ReadError::Failed(e2, at2)) && e2 == e && at2 == at,
        },
{
    match r {
        Ok(v) => Ok(v),
        Err((e, at)) => Err(ReadError::Failed(e, at)),
    }
}

/// A refusal as `None`, and anything else as `Some`.
pub(crate) fn refusal_as_none<T>(r: Result<T, ReadError>) -> (o: Option<
    Result<T, (ParseError, usize)>,
>)
    ensures
        match r {
            Ok(v) => o matches Some(Ok(w)) && w == v,
            Err(ReadError::Failed(e, at)) => o matches Some(Err((e2, at2))) && e2 == e && at2
                == at,
            Err(ReadError::Refused) => o is None,
        },
{
    match r {
        Ok(v) => Some(Ok(v)),
        Err(ReadError::Failed(e, at)) => Some(Err((e, at))),
        Err(ReadError::Refused) => None,
    }
}

/// What a read of part of a byte buffer comes to: a refusal of the bytes, a failure
/// together with the offset at which reading stopped, or a value together with the number
/// of bytes it took.
pub enum Parsed<T> {
    Refused,
    Fail(ParseError, int),
    Done(T, nat),
}

/// Running out of the bytes `b`: an `IOError`, with reading stopped at their end.
pub open spec fn ran_out<T>(b: Seq<u8>) -> Parsed<T> {
    Parsed::Fail(ParseError::IOError, b.len() as int)
}

/// Where a read of `b` that began at `pos` stops when it fails: at the end of the bytes
/// when they ran out, else past `pos` and within the bytes.
pub open spec fn stops_within<T>(p: Parsed<T>, b: Seq<u8>, pos: int) -> bool {
    p matches Parsed::Fail(e, at) ==> if e == ParseError::IOError {
        at == b.len()
    } else {
        pos < at <= b.len()
    }
}

/// True when `res`, the result of a read that began at `pos`, is what `p` describes.
pub open spec fn parsed_as<T: View>(
    p: Parsed<T::V>,
    pos: int,
    res: Result<(T, usize), (ParseError, usize)>,
) -> bool {
    match p {
        Parsed::Refused => false,
        Parsed::Fail(e, at) => res matches Err((e2, at2)) && e2 == e && at2 == at,
        Parsed::Done(v, k) => res matches Ok((t, end)) && t@ == v && end == pos + k,
    }
}

/// True when `r`, the result of a read that began at `pos`, is what `p` describes, a
/// refusal showing as `None`.
pub open spec fn read_as<T: View>(
    p: Parsed<T::V>,
    pos: int,
    r: Option<Result<(T, usize), (ParseError, usize)>>,
) -> bool {
    match p {
        Parsed::Refused => r is None,
        _ => r matches Some(res) && parsed_as(p, pos, res),
    }
}

/// True when `r`, the result of a read that began at `pos`, is what `p` describes.
pub(crate) open spec fn worked_as<T: View>(
    p: Parsed<T::V>,
    pos: int,
    r: Result<(T, usize), ReadError>,
) -> bool {
    match p {
        Parsed::Refused => r matches Err(ReadError::Refused),
        Parsed::Fail(e, at) => r matches Err(ReadError::Failed(e2, at2)) && e2 == e && at2 == at,
        Parsed::Done(v, k) => r matches Ok((t, end)) && t@ == v && end == pos + k,
    }
}

/// True when byte offset `i` of the UTF-8 text `b` starts a character or ends the text:
/// the offsets at which a `str` may be cut.
pub open spec fn at_char_start(b: Seq<u8>, i: int) -> bool {
    &&& 0 <= i <= b.len()
    &&& (i == b.len() || !vstd::utf8::is_continuation_byte(b[i]))
}

/// The bytes of every `str` are valid UTF-8, and its characters are what they decode to.
pub proof fn lemma_str_bytes(s: &str)
    ensures
        vstd::utf8::valid_utf8(s.spec_bytes()),
        s@ == vstd::utf8::decode_utf8(s.spec_bytes()),
{
    vstd::utf8::encode_utf8_valid_utf8(s@);
    vstd::utf8::encode_utf8_decode_utf8(s@);
}

/// On valid UTF-8, `at_char_start` is exactly the character-boundary test of `str`.
pub proof fn lemma_at_char_start(b: Seq<u8>, i: int)
    requires
        vstd::utf8::valid_utf8(b),
    ensures
        at_char_start(b, i) <==> vstd::utf8::is_char_boundary(b, i),
{
    vstd::utf8::is_char_boundary_start_end_of_seq(b);
    if 0 <= i < b.len() {
        vstd::utf8::is_char_boundary_iff_not_is_continuation_byte(b, i);
    }
}

/// The part of `s` between byte offsets `from` and `to` (`&s[from..to]`).
pub(crate) fn str_slice<'a>(s: &'a str, from: usize, to: usize) -> (r: &'a str)
    requires
        from <= to,
        at_char_start(s.spec_bytes(), from as int),
        at_char_start(s.spec_bytes(), to as int),
    ensures
        r.spec_bytes() == s.spec_bytes().subrange(from as int, to as int),
        r@ == vstd::utf8::decode_utf8(s.spec_bytes().subrange(from as int, to as int)),
{
    let ghost b = s.spec_bytes();
    proof {
        lemma_str_bytes(s);
        lemma_at_char_start(b, to as int);
    }
    let (head, _tail) = s.split_at(to);
    proof {
        let h = head.spec_bytes();
        assert(h =~= b.subrange(0, to as int));
        lemma_str_bytes(head);
        lemma_at_char_start(h, from as int);
    }
    let (_front, mid) = head.split_at(from);
    proof {
        assert(mid.spec_bytes() =~= b.subrange(from as int, to as int));
        lemma_str_bytes(mid);
    }
    mid
}

/// Whether two byte slices hold the same bytes.
pub(crate) fn bytes_eq(a: &[u8], b: &[u8]) -> (r: bool)
    ensures
        r == (a@ == b@),
{
    if a.len() != b.len() {
        return false;
    }
    let mut i: usize = 0;
    while i < a.len()
        invariant
            i <= a@.len(),
            a@.len() == b@.len(),
            forall|j: int| 0 <= j < i ==> a@[j] == b@[j],
        decreases a@.len() - i,
    {
        if a[i] != b[i] {
            return false;
        }
        i = i + 1;
    }
    proof {
        assert(a@ =~= b@);
    }
    true
}

/// Whether two strings hold the same text.
pub(crate) fn str_eq(a: &str, b: &str) -> (r: bool)
    ensures
        r == (a@ == b@),
{
    proof {
        lemma_str_bytes(a);
        lemma_str_bytes(b);
    }
    bytes_eq(a.as_bytes(), b.as_bytes())
}

/// Reading within `b` is the same as reading within `b` followed by `more`.
pub proof fn lemma_reads_extend(b: Seq<u8>, more: Seq<u8>)
    ensures
        forall|p: int| 0 <= p && #[trigger] has_bytes(b, p, 2) ==> be16(b + more, p) == be16(b, p),
        forall|p: int| 0 <= p && #[trigger] has_bytes(b, p, 4) ==> be32(b + more, p) == be32(b, p),
        forall|p: int| 0 <= p && #[trigger] has_bytes(b, p, 8) ==> be64(b + more, p) == be64(b, p),
        forall|p: int, w: int| #[trigger] has_bytes(b, p, w) ==> has_bytes(b + more, p, w),
        forall|x: int, y: int|
            0 <= x <= y <= b.len() ==> #[trigger] (b + more).subrange(x, y) == b.subrange(x, y),
        forall|i: int| 0 <= i < b.len() ==> #[trigger] (b + more)[i] == b[i],
{
    let c = b + more;
    assert forall|x: int, y: int| 0 <= x <= y <= b.len() implies #[trigger] c.subrange(x, y)
        == b.subrange(x, y) by {
        assert(c.subrange(x, y) =~= b.subrange(x, y));
    }
}

/// True when the 16-bit number `x` is written as the two bytes `hi`, `lo`, high byte
/// first.
pub open spec fn spelled_by(x: int, hi: u8, lo: u8) -> bool {
    x / 0x100 == hi && x % 0x100 == lo
}

/// The two bytes of `b` at `p`, read as a big-endian `u16`, keep all sixteen bits: the
/// number fits in a `u16`, and its high and low bytes are the two bytes.
pub proof fn lemma_be16_spelled(b: Seq<u8>, p: int)
    requires
        0 <= p,
        has_bytes(b, p, 2),
    ensures
        0 <= be16(b, p) < 0x10000,
        (be16(b, p) as u16) as int == be16(b, p),
        spelled_by(be16(b, p), b[p], b[p + 1]),
{
    vstd::arithmetic::div_mod::lemma_fundamental_div_mod_converse(
        be16(b, p),
        0x100,
        b[p] as int,
        b[p + 1] as int,
    );
}

} // verus!
