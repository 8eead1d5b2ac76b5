//! Constant-pool entries and how they are read from a class file.

use crate::bytes::{
    be16, be32, be64, has_bytes, lemma_be16_spelled, lemma_reads_extend, spelled_by, parsed_as, ran_out, read_as, read_i32_at,
    read_i64_at, read_u16_at, read_u32_at, read_u64_at, read_u8_at, signed32, signed64,
    stops_within, Parsed,
};
use crate::class::{ConstantPool, ParseError};
use crate::mutf8::{
    decode_modified_utf8, encode_units, lemma_modified_utf8_extend, lemma_units_canonical,
    lemma_units_text_canonical, modified_utf8_text, modified_utf8_units, units_text, utf16_units,
};
use vstd::prelude::*;
use vstd::std_specs::cmp::PartialEqSpec;

verus! {

/// The tag byte that opens a constant-pool entry and names its kind.
#[derive(Debug)]
pub enum PoolTag {
    Utf8,
    Integer,
    Float,
    Long,
    Double,
    Class,
    String,
    FieldRef,
    MethodRef,
    InterfaceMethodRef,
    NameAndType,
    MethodHandle,
    MethodType,
    InvokeDynamic,
}

/// The byte value of a tag.
pub open spec fn pool_tag_value(t: PoolTag) -> u8 {
    match t {
        PoolTag::Utf8 => 1,
        PoolTag::Integer => 3,
        PoolTag::Float => 4,
        PoolTag::Long => 5,
        PoolTag::Double => 6,
        PoolTag::Class => 7,
        PoolTag::String => 8,
        PoolTag::FieldRef => 9,
        PoolTag::MethodRef => 10,
        PoolTag::InterfaceMethodRef => 11,
        PoolTag::NameAndType => 12,
        PoolTag::MethodHandle => 15,
        PoolTag::MethodType => 16,
        PoolTag::InvokeDynamic => 18,
    }
}

/// The tag that a byte names, if it names one.
pub open spec fn pool_tag_of(b: u8) -> Option<PoolTag> {
    if b == 1 {
        Some(PoolTag::Utf8)
    } else if b == 3 {
        Some(PoolTag::Integer)
    } else if b == 4 {
        Some(PoolTag::Float)
    } else if b == 5 {
        Some(PoolTag::Long)
    } else if b == 6 {
        Some(PoolTag::Double)
    } else if b == 7 {
        Some(PoolTag::Class)
    } else if b == 8 {
        Some(PoolTag::String)
    } else if b == 9 {
        Some(PoolTag::FieldRef)
    } else if b == 10 {
        Some(PoolTag::MethodRef)
    } else if b == 11 {
        Some(PoolTag::InterfaceMethodRef)
    } else if b == 12 {
        Some(PoolTag::NameAndType)
    } else if b == 15 {
        Some(PoolTag::MethodHandle)
    } else if b == 16 {
        Some(PoolTag::MethodType)
    } else if b == 18 {
        Some(PoolTag::InvokeDynamic)
    } else {
        None
    }
}

/// Whether the byte `b` names a tag.
fn is_pool_tag(b: u8) -> (r: bool)
    ensures
        r == pool_tag_of(b) is Some,
{
    b == 1 || b == 3 || b == 4 || b == 5 || b == 6 || b == 7 || b == 8 || b == 9 || b == 10 || b
        == 11 || b == 12 || b == 15 || b == 16 || b == 18
}

impl PoolTag {
    /// The byte value of this tag.
    pub fn as_int(&self) -> (r: u8)
        ensures
            r == pool_tag_value(*self),
    {
        match self {
            PoolTag::Utf8 => 1,
            PoolTag::Integer => 3,
            PoolTag::Float => 4,
            PoolTag::Long => 5,
            PoolTag::Double => 6,
            PoolTag::Class => 7,
            PoolTag::String => 8,
            PoolTag::FieldRef => 9,
            PoolTag::MethodRef => 10,
            PoolTag::InterfaceMethodRef => 11,
            PoolTag::NameAndType => 12,
            PoolTag::MethodHandle => 15,
            PoolTag::MethodType => 16,
            PoolTag::InvokeDynamic => 18,
        }
    }

    /// The tag that the byte `you_ate` names; the byte must name one.
    pub fn from(you_ate: u8) -> (r: PoolTag)
        requires
            pool_tag_of(you_ate) is Some,
        ensures
            pool_tag_of(you_ate) == Some(r),
    {
        if you_ate == 1 {
            PoolTag::Utf8
        } else if you_ate == 3 {
            PoolTag::Integer
        } else if you_ate == 4 {
            PoolTag::Float
        } else if you_ate == 5 {
            PoolTag::Long
        } else if you_ate == 6 {
            PoolTag::Double
        } else if you_ate == 7 {
            PoolTag::Class
        } else if you_ate == 8 {
            PoolTag::String
        } else if you_ate == 9 {
            PoolTag::FieldRef
        } else if you_ate == 10 {
            PoolTag::MethodRef
        } else if you_ate == 11 {
            PoolTag::InterfaceMethodRef
        } else if you_ate == 12 {
            PoolTag::NameAndType
        } else if you_ate == 15 {
            PoolTag::MethodHandle
        } else if you_ate == 16 {
            PoolTag::MethodType
        } else {
            PoolTag::InvokeDynamic
        }
    }
}

impl PartialEq for PoolTag {
    fn eq(&self, other: &Self) -> (r: bool) {
        self.as_int() == other.as_int()
    }
}

impl vstd::std_specs::cmp::PartialEqSpecImpl for PoolTag {
    open spec fn obeys_eq_spec() -> bool {
        true
    }

    open spec fn eq_spec(&self, other: &Self) -> bool {
        pool_tag_value(*self) == pool_tag_value(*other)
    }
}

/// Tags and their byte values determine each other.
pub proof fn lemma_pool_tag_roundtrip(t: PoolTag, b: u8)
    ensures
        pool_tag_of(pool_tag_value(t)) == Some(t),
        pool_tag_of(b) matches Some(u) ==> pool_tag_value(u) == b,
{
}

/// Two tags compare equal under `==` exactly when they are the same tag.
pub proof fn lemma_pool_tag_eq(a: PoolTag, b: PoolTag)
    ensures
        a.eq_spec(&b) <==> a == b,
{
}

/// An entry of the constant pool. `Float` and `Double` hold the IEEE 754 bit patterns
/// of their values.
#[derive(Debug)]
pub enum Constant {
    /// The text of a string constant.
    Utf8(String),
    Integer(i32),
    Float(u32),
    Long(i64),
    Double(u64),
    /// name_index
    Class(u16),
    /// string_index
    String(u16),
    /// class_index, name_and_type_index
    FieldRef(u16, u16),
    /// class_index, name_and_type_index
    MethodRef(u16, u16),
    /// class_index, name_and_type_index
    InterfaceMethodRef(u16, u16),
    /// name_index, descriptor_index
    NameAndType(u16, u16),
    /// reference_kind, reference_index
    MethodHandle(u8, u16),
    /// descriptor_index
    MethodType(u16),
    /// bootstrap_method_attr_index, name_and_type_index
    InvokeDynamic(u16, u16),
}

/// A constant-pool entry as a mathematical value: text as a character sequence.
pub enum ConstantView {
    Utf8(Seq<char>),
    Integer(i32),
    Float(u32),
    Long(i64),
    Double(u64),
    Class(u16),
    String(u16),
    FieldRef(u16, u16),
    MethodRef(u16, u16),
    InterfaceMethodRef(u16, u16),
    NameAndType(u16, u16),
    MethodHandle(u8, u16),
    MethodType(u16),
    InvokeDynamic(u16, u16),
}

impl View for Constant {
    type V = ConstantView;

    open spec fn view(&self) -> ConstantView {
        match self {
            Constant::Utf8(s) => ConstantView::Utf8(s@),
            Constant::Integer(v) => ConstantView::Integer(*v),
            Constant::Float(v) => ConstantView::Float(*v),
            Constant::Long(v) => ConstantView::Long(*v),
            Constant::Double(v) => ConstantView::Double(*v),
            Constant::Class(i) => ConstantView::Class(*i),
            Constant::String(i) => ConstantView::String(*i),
            Constant::FieldRef(i, j) => ConstantView::FieldRef(*i, *j),
            Constant::MethodRef(i, j) => ConstantView::MethodRef(*i, *j),
            Constant::InterfaceMethodRef(i, j) => ConstantView::InterfaceMethodRef(*i, *j),
            Constant::NameAndType(i, j) => ConstantView::NameAndType(*i, *j),
            Constant::MethodHandle(k, i) => ConstantView::MethodHandle(*k, *i),
            Constant::MethodType(i) => ConstantView::MethodType(*i),
            Constant::InvokeDynamic(i, j) => ConstantView::InvokeDynamic(*i, *j),
        }
    }
}

/// A body of `w` bytes at `p`, taken by an entry whose tag sits just before it.
pub open spec fn fixed_body(b: Seq<u8>, p: int, w: int, v: ConstantView) -> Parsed<ConstantView> {
    if has_bytes(b, p, w) {
        Parsed::Done(v, (1 + w) as nat)
    } else {
        ran_out(b)
    }
}

/// What reading the body of a `Utf8` entry at `p` of `b` comes to: a `u16` length and
/// that many bytes of modified UTF-8, giving the text and the width of the body. Bytes
/// that hold no text fail with `StringError` once all of them are read.
pub open spec fn utf8_body_at(b: Seq<u8>, p: int) -> Parsed<Seq<char>> {
    if !has_bytes(b, p, 2) {
        ran_out(b)
    } else {
        let len = be16(b, p);
        if !has_bytes(b, p + 2, len) {
            ran_out(b)
        } else {
            match modified_utf8_text(b, p + 2, p + 2 + len) {
                Some(text) => Parsed::Done(text, (2 + len) as nat),
                None => Parsed::Fail(ParseError::StringError, p + 2 + len),
            }
        }
    }
}

/// What `Constant::from_bytes` reads from the bytes `b` at offset `pos`: the tag byte,
/// then the body that the tag calls for, all numbers big-endian. A `Utf8` body is a
/// `u16` length and that many bytes of modified UTF-8. Running out of bytes is an
/// `IOError`, bytes that hold no text a `StringError`, and a byte that names no tag is
/// refused.
pub open spec fn constant_at(b: Seq<u8>, pos: int) -> Parsed<ConstantView> {
    if !has_bytes(b, pos, 1) {
        ran_out(b)
    } else {
        let p = pos + 1;
        match pool_tag_of(b[pos]) {
            None => Parsed::Refused,
            Some(tag) => match tag {
                PoolTag::Utf8 => match utf8_body_at(b, p) {
                    Parsed::Done(text, k) => Parsed::Done(ConstantView::Utf8(text), 1 + k),
                    Parsed::Fail(e, at) => Parsed::Fail(e, at),
                    Parsed::Refused => Parsed::Refused,
                },
                PoolTag::Integer => fixed_body(
                    b,
                    p,
                    4,
                    ConstantView::Integer(signed32(be32(b, p)) as i32),
                ),
                PoolTag::Float => fixed_body(b, p, 4, ConstantView::Float(be32(b, p) as u32)),
                PoolTag::Long => fixed_body(
                    b,
                    p,
                    8,
                    ConstantView::Long(signed64(be64(b, p)) as i64),
                ),
                PoolTag::Double => fixed_body(b, p, 8, ConstantView::Double(be64(b, p) as u64)),
                PoolTag::Class => fixed_body(b, p, 2, ConstantView::Class(be16(b, p) as u16)),
                PoolTag::String => fixed_body(b, p, 2, ConstantView::String(be16(b, p) as u16)),
                PoolTag::FieldRef => fixed_body(
                    b,
                    p,
                    4,
                    ConstantView::FieldRef(be16(b, p) as u16, be16(b, p + 2) as u16),
                ),
                PoolTag::MethodRef => fixed_body(
                    b,
                    p,
                    4,
                    ConstantView::MethodRef(be16(b, p) as u16, be16(b, p + 2) as u16),
                ),
                PoolTag::InterfaceMethodRef => fixed_body(
                    b,
                    p,
                    4,
                    ConstantView::InterfaceMethodRef(be16(b, p) as u16, be16(b, p + 2) as u16),
                ),
                PoolTag::NameAndType => fixed_body(
                    b,
                    p,
                    4,
                    ConstantView::NameAndType(be16(b, p) as u16, be16(b, p + 2) as u16),
                ),
                PoolTag::MethodHandle => fixed_body(
                    b,
                    p,
                    3,
                    ConstantView::MethodHandle(b[p], be16(b, p + 1) as u16),
                ),
                PoolTag::MethodType => fixed_body(
                    b,
                    p,
                    2,
                    ConstantView::MethodType(be16(b, p) as u16),
                ),
                PoolTag::InvokeDynamic => fixed_body(
                    b,
                    p,
                    4,
                    ConstantView::InvokeDynamic(be16(b, p) as u16, be16(b, p + 2) as u16),
                ),
            },
        }
    }
}

/// The body of a `Utf8` entry at `p`: a big-endian `u16` length and that many bytes of
/// modified UTF-8 text. Gives the text and the width of the body.
fn read_utf8_body(bytes: &[u8], p: usize) -> (r: Result<(String, usize), (ParseError, usize)>)
    ensures
        match utf8_body_at(bytes@, p as int) {
            Parsed::Done(t, k) => r matches Ok((s, w)) && s@ == t && w == k,
            Parsed::Fail(e, at) => r matches Err((e2, at2)) && e2 == e && at2 == at,
            Parsed::Refused => false,
        },
{
    let n = bytes.len();
    let length = read_u16_at(bytes, p)?;
    let start = p + 2;
    if !(start <= n && n - start >= length as usize) {
        return Err((ParseError::IOError, n));
    }
    let end = start + length as usize;
    match decode_modified_utf8(bytes, start, end) {
        Some(s) => Ok((s, 2 + length as usize)),
        None => Err((ParseError::StringError, end)),
    }
}

/// Two big-endian `u16` one after the other at `p`; `IOError` where the bytes run out.
fn read_index_pair(bytes: &[u8], p: usize) -> (r: Result<(u16, u16), (ParseError, usize)>)
    ensures
        r == (if has_bytes(bytes@, p as int, 4) {
            Ok((be16(bytes@, p as int) as u16, be16(bytes@, p + 2) as u16))
        } else {
            Err((ParseError::IOError, bytes.len()))
        }),
{
    let n = bytes.len();
    let i = read_u16_at(bytes, p)?;
    let j = read_u16_at(bytes, p + 2)?;
    Ok((i, j))
}

impl Constant {
    /// Reads one constant-pool entry from `bytes` at offset `pos`; gives it with the offset
    /// just past it, or the error with the offset at which reading stopped. `None` where the
    /// tag byte names no kind of entry.
    pub fn read(bytes: &[u8], pos: usize, constant_pool: &ConstantPool) -> (r: Option<
        Result<(Constant, usize), (ParseError, usize)>,
    >)
        ensures
            read_as(constant_at(bytes@, pos as int), pos as int, r),
    {
        if pos < bytes.len() && !is_pool_tag(bytes[pos]) {
            return None;
        }
        Some(Constant::from_bytes(bytes, pos, constant_pool))
    }

    /// Reads one constant-pool entry from `bytes` at offset `pos`; returns it with the
    /// offset just past it, or the error with the offset at which reading stopped.
    pub fn from_bytes(bytes: &[u8], pos: usize, constant_pool: &ConstantPool) -> (res: Result<
        (Constant, usize),
        (ParseError, usize),
    >)
        requires
            !(constant_at(bytes@, pos as int) is Refused),
        ensures
            parsed_as(constant_at(bytes@, pos as int), pos as int, res),
    {
        let n = bytes.len();
        let tag = read_u8_at(bytes, pos)?;
        let as_pool_tag = PoolTag::from(tag);
        let p = pos + 1;
        let c = match as_pool_tag {
            PoolTag::Utf8 => {
                let (text, width) = read_utf8_body(bytes, p)?;
                (Constant::Utf8(text), p + width)
            },
            PoolTag::Integer => (Constant::Integer(read_i32_at(bytes, p)?), p + 4),
            PoolTag::Float => (Constant::Float(read_u32_at(bytes, p)?), p + 4),
            PoolTag::Long => (Constant::Long(read_i64_at(bytes, p)?), p + 8),
            PoolTag::Double => (Constant::Double(read_u64_at(bytes, p)?), p + 8),
            PoolTag::Class => (Constant::Class(read_u16_at(bytes, p)?), p + 2),
            PoolTag::String => (Constant::String(read_u16_at(bytes, p)?), p + 2),
            PoolTag::FieldRef => {
                let (i, j) = read_index_pair(bytes, p)?;
                (Constant::FieldRef(i, j), p + 4)
            },
            PoolTag::MethodRef => {
                let (i, j) = read_index_pair(bytes, p)?;
                (Constant::MethodRef(i, j), p + 4)
            },
            PoolTag::InterfaceMethodRef => {
                let (i, j) = read_index_pair(bytes, p)?;
                (Constant::InterfaceMethodRef(i, j), p + 4)
            },
            PoolTag::NameAndType => {
                let (i, j) = read_index_pair(bytes, p)?;
                (Constant::NameAndType(i, j), p + 4)
            },
            PoolTag::MethodHandle => {
                let kind = read_u8_at(bytes, p)?;
                let i = read_u16_at(bytes, p + 1)?;
                (Constant::MethodHandle(kind, i), p + 3)
            },
            PoolTag::MethodType => (Constant::MethodType(read_u16_at(bytes, p)?), p + 2),
            PoolTag::InvokeDynamic => {
                let (i, j) = read_index_pair(bytes, p)?;
                (Constant::InvokeDynamic(i, j), p + 4)
            },
        };
        Ok(c)
    }
}

/// Bytes after a constant-pool entry do not change how it reads: where reading an entry
/// from `b` at `pos` succeeds, reading from `b` followed by `more` at `pos` gives the same
/// entry and length.
pub proof fn lemma_constant_at_extend(b: Seq<u8>, more: Seq<u8>, pos: int)
    requires
        0 <= pos,
        constant_at(b, pos) is Done,
    ensures
        constant_at(b + more, pos) == constant_at(b, pos),
{
    lemma_reads_extend(b, more);
    assert(has_bytes(b, pos, 1));
    assert((b + more)[pos] == b[pos]);
    if b[pos] == 1 {
        assert(has_bytes(b, pos + 1, 2));
        let len = be16(b, pos + 1);
        lemma_modified_utf8_extend(b, more, pos + 3, pos + 3 + len);
    } else if b[pos] == 15 {
        assert(has_bytes(b, pos + 1, 3));
        assert(has_bytes(b, pos + 2, 2));
        assert((b + more)[pos + 1] == b[pos + 1]);
    } else if b[pos] == 9 || b[pos] == 10 || b[pos] == 11 || b[pos] == 12 || b[pos] == 18 {
        assert(has_bytes(b, pos + 1, 4));
        assert(has_bytes(b, pos + 1, 2));
        assert(has_bytes(b, pos + 3, 2));
    }
}

/// Reading a constant-pool entry is refused exactly where its tag byte names no kind of
/// entry, and a successful read takes bytes that all lie within the buffer.
pub proof fn lemma_constant_at_refusal_and_width(b: Seq<u8>, pos: int)
    requires
        0 <= pos,
    ensures
        constant_at(b, pos) is Refused <==> (has_bytes(b, pos, 1) && pool_tag_of(b[pos]) is None),
        constant_at(b, pos) matches Parsed::Done(_, k) ==> pos + k <= b.len(),
{
}

/// A failed read of a constant-pool entry stops at the end of the bytes where they ran
/// out, and otherwise, past the start of the entry, at the end of its text.
pub proof fn lemma_constant_at_stops(b: Seq<u8>, pos: int)
    ensures
        stops_within(constant_at(b, pos), b, pos),
{
}

/// A read of a constant-pool entry by value: the entry's view with the end offset, the
/// error with the offset at which reading stopped, or `None` for a refusal.
pub open spec fn constant_read_outcome(
    r: Option<Result<(Constant, usize), (ParseError, usize)>>,
) -> Option<Result<(ConstantView, usize), (ParseError, usize)>> {
    match r {
        Some(Ok((c, end))) => Some(Ok((c@, end))),
        Some(Err(e)) => Some(Err(e)),
        None => None,
    }
}

/// The constant pool handed to `Constant::read` plays no part in what it reads: two reads
/// of the same bytes at the same offset, whatever pools they were given, give the same
/// entry and end offset, the same error and stopping offset, or are both refused.
pub proof fn lemma_constant_read_ignores_pool(
    bytes: Seq<u8>,
    pos: int,
    r1: Option<Result<(Constant, usize), (ParseError, usize)>>,
    r2: Option<Result<(Constant, usize), (ParseError, usize)>>,
)
    requires
        read_as(constant_at(bytes, pos), pos, r1),
        read_as(constant_at(bytes, pos), pos, r2),
    ensures
        constant_read_outcome(r1) == constant_read_outcome(r2),
{
}

/// The number that the four bytes of `b` at `p` spell, most significant first.
pub open spec fn word32(b: Seq<u8>, p: int) -> int {
    b[p] * 0x100_0000 + b[p + 1] * 0x1_0000 + b[p + 2] * 0x100 + b[p + 3]
}

/// The number that the eight bytes of `b` at `p` spell, most significant first.
pub open spec fn word64(b: Seq<u8>, p: int) -> int {
    word32(b, p) * 0x1_0000_0000 + word32(b, p + 4)
}

/// True when the entry `v`, read from `b` at `pos` and taking `k` bytes, is laid out in
/// the bytes as the class-file format lays out such an entry: the tag byte at `pos` names
/// its kind, and the body after it holds its fields, each number most significant byte
/// first. A `Utf8` entry holds its length in two bytes and then exactly the modified UTF-8
/// of its text; `Integer` and `Long` are two's-complement; `Float` and `Double` are the
/// bit patterns as read.
pub open spec fn constant_laid_out(v: ConstantView, k: nat, b: Seq<u8>, pos: int) -> bool {
    let p = pos + 1;
    &&& 0 <= pos && pos + k <= b.len()
    &&& match v {
        ConstantView::Utf8(t) => b[pos] == 1 && 3 <= k && spelled_by(k - 3, b[p], b[p + 1])
            && b.subrange(p + 2, pos + k) == encode_units(utf16_units(t)),
        ConstantView::Integer(x) => b[pos] == 3 && k == 5 && x as int == word32(b, p) - (if b[p]
            >= 0x80 {
            0x1_0000_0000int
        } else {
            0int
        }),
        ConstantView::Float(x) => b[pos] == 4 && k == 5 && x as int == word32(b, p),
        ConstantView::Long(x) => b[pos] == 5 && k == 9 && x as int == word64(b, p) - (if b[p]
            >= 0x80 {
            0x1_0000_0000_0000_0000int
        } else {
            0int
        }),
        ConstantView::Double(x) => b[pos] == 6 && k == 9 && x as int == word64(b, p),
        ConstantView::Class(i) => b[pos] == 7 && k == 3 && spelled_by(i as int, b[p], b[p + 1]),
        ConstantView::String(i) => b[pos] == 8 && k == 3 && spelled_by(i as int, b[p], b[p + 1]),
        ConstantView::FieldRef(i, j) => b[pos] == 9 && k == 5 && spelled_by(
            i as int,
            b[p],
            b[p + 1],
        ) && spelled_by(j as int, b[p + 2], b[p + 3]),
        ConstantView::MethodRef(i, j) => b[pos] == 10 && k == 5 && spelled_by(
            i as int,
            b[p],
            b[p + 1],
        ) && spelled_by(j as int, b[p + 2], b[p + 3]),
        ConstantView::InterfaceMethodRef(i, j) => b[pos] == 11 && k == 5 && spelled_by(
            i as int,
            b[p],
            b[p + 1],
        ) && spelled_by(j as int, b[p + 2], b[p + 3]),
        ConstantView::NameAndType(i, j) => b[pos] == 12 && k == 5 && spelled_by(
            i as int,
            b[p],
            b[p + 1],
        ) && spelled_by(j as int, b[p + 2], b[p + 3]),
        ConstantView::MethodHandle(kind, i) => b[pos] == 15 && k == 4 && kind == b[p]
            && spelled_by(i as int, b[p + 1], b[p + 2]),
        ConstantView::MethodType(i) => b[pos] == 16 && k == 3 && spelled_by(
            i as int,
            b[p],
            b[p + 1],
        ),
        ConstantView::InvokeDynamic(i, j) => b[pos] == 18 && k == 5 && spelled_by(
            i as int,
            b[p],
            b[p + 1],
        ) && spelled_by(j as int, b[p + 2], b[p + 3]),
    }
}

/// A constant-pool entry that is read is laid out in the bytes as `constant_laid_out` says.
pub proof fn lemma_constant_layout(b: Seq<u8>, pos: int)
    requires
        0 <= pos,
        constant_at(b, pos) is Done,
    ensures
        constant_at(b, pos) matches Parsed::Done(v, k) && constant_laid_out(v, k, b, pos),
{
    let p = pos + 1;
    let tag = b[pos];
    if has_bytes(b, p, 2) {
        lemma_be16_spelled(b, p);
    }
    if has_bytes(b, p + 2, 2) {
        lemma_be16_spelled(b, p + 2);
    }
    if has_bytes(b, p + 1, 2) {
        lemma_be16_spelled(b, p + 1);
    }
    if tag == 1 {
        let len = be16(b, p);
        let us = modified_utf8_units(b, p + 2, p + 2 + len)->0;
        lemma_units_canonical(b, p + 2, p + 2 + len);
        lemma_units_text_canonical(us, 0);
        assert(us.subrange(0, us.len() as int) =~= us);
    }
}

} // verus!
