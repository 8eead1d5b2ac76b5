//! Attributes of classes, fields, methods and code, and how they are read from a class file.
//! Of the attributes, `ConstantValue` and `Code` are read in full; any other is skipped.

pub mod stackmap;

use crate::attribute::stackmap::StackMapFrame;
use crate::bytes::{
    be16, be32, has_bytes, lemma_be16_spelled, lemma_reads_extend, lift, parsed_as, ran_out,
    read_as, read_u16_at, read_u32_at, refusal_as_none, spelled_by, stops_within, str_eq,
    worked_as, Parsed, ReadError,
};
use crate::class::{pool_utf8, ConstantPool, ParseError};
use crate::constant::Constant;
use crate::strmap::StrMap;
use vstd::prelude::*;

verus! {

/// An attribute: its name and what it holds.
#[derive(Debug)]
pub struct Attribute {
    pub attribute_name: String,
    pub info: AttributeItem,
}

/// What an attribute holds.
#[derive(Debug)]
pub enum AttributeItem {
    ConstantValue(ConstantValue),
    Code(Code),
    CodeExceptionTable(CodeExceptionTable),
    StackMapFrame(StackMapFrame),
    Exceptions(Exceptions),
    InnerClasses(InnerClasses),
    InnerClassEntry(InnerClassEntry),
    EnclosingMethod(EnclosingMethod),
    Synthetic(Synthetic),
    Signature(Signature),
    SourceFile(SourceFile),
    SourceDebugExtension(SourceDebugExtension),
    LineNumberTable(LineNumberTable),
    LocalVariableTable(LocalVariableTable),
    Deprecated(Deprecated),
    RuntimeVisibleAnnotations(RuntimeVisibleAnnotations),
    Annotation(Annotation),
    Unimplemented,
}

/// The value of a constant field: an index into the constant pool.
#[derive(Debug)]
pub struct ConstantValue {
    pub constant_value_index: u16,
}

/// The bytecode of a method and what goes with it.
#[derive(Debug)]
pub struct Code {
    pub max_stack: u16,
    pub max_locals: u16,
    pub code_length: u32,
    /// The bytecode.
    pub code: Vec<u8>,
    pub exception_table_length: u16,
    pub exception_table: Vec<CodeExceptionTable>,
    pub attributes_count: u16,
    pub attributes: Vec<Attribute>,
}

/// An exception handler of a method's code.
#[derive(Debug, Clone, Copy)]
pub struct CodeExceptionTable {
    pub start_pc: u16,
    pub end_pc: u16,
    pub handler_pc: u16,
    pub catch_type: u16,
}

#[derive(Debug)]
pub struct Exceptions {
    number_of_exceptions: u16,
    exception_table_index: Vec<u16>,
}

#[derive(Debug)]
pub struct InnerClasses {
    number_of_classes: u16,
    classes: Vec<InnerClassEntry>,
}

#[derive(Debug)]
pub struct InnerClassEntry {
    inner_class_info_index: u16,
    outer_class_info_index: u16,
    inner_name_index: u16,
    inner_class_access_flags: u16,
}

#[derive(Debug)]
pub struct EnclosingMethod {
    class_index: u16,
    method_index: u16,
}

#[derive(Debug)]
pub struct Synthetic {}

#[derive(Debug)]
pub struct Signature {
    signature_index: u16,
}

#[derive(Debug)]
pub struct SourceFile {
    sourcefile_index: u16,
}

#[derive(Debug)]
pub struct SourceDebugExtension {
    debug_extension: Vec<u8>,
}

#[derive(Debug)]
pub struct LineNumberTable {
    line_number_table_length: u16,
    line_number_table: Vec<LineNumberTableEntry>,
}

#[derive(Debug)]
pub struct LineNumberTableEntry {
    start_pc: u16,
    line_number: u16,
}

#[derive(Debug)]
pub struct LocalVariableTable {
    local_variable_table_length: u16,
    local_variable_table: Vec<LocalVariableTableEntry>,
}

#[derive(Debug)]
pub struct LocalVariableTableEntry {
    start_pc: u16,
    length: u16,
    name_index: u16,
    descriptor_index: u16,
    index: u16,
}

#[derive(Debug)]
pub struct LocalVariableTypeEntry {
    start_pc: u16,
    length: u16,
    name_index: u16,
    signature_index: u16,
    index: u16,
}

#[derive(Debug)]
pub struct Deprecated {}

#[derive(Debug)]
pub struct RuntimeVisibleAnnotations {
    num_annotations: u16,
    annotations: Vec<Annotation>,
}

#[derive(Debug)]
pub struct Annotation {
    type_index: u16,
    num_element_value_pairs: u16,
    element_value_pairs: Vec<AnnotationElementValuePair>,
}

#[derive(Debug)]
pub struct ElementValue {
    tag: u8,
    value: ElementValueUnion,
}

#[derive(Debug)]
pub struct ElementValueUnion {
    const_value_index: u16,
}

#[derive(Debug)]
pub struct AnnotationElementValuePair(u16, ElementValue);

/// An attribute as a mathematical value.
pub struct AttributeView {
    pub name: Seq<char>,
    pub info: AttributeItemView,
}

/// What an attribute holds, as a mathematical value. `Other` stands for the kinds of
/// attribute item that the reader never builds.
pub enum AttributeItemView {
    ConstantValue(u16),
    Code(CodeView),
    Unimplemented,
    Other,
}

/// A `Code` attribute as a mathematical value.
pub struct CodeView {
    pub max_stack: u16,
    pub max_locals: u16,
    pub code_length: u32,
    pub code: Seq<u8>,
    pub exception_table_length: u16,
    pub exception_table: Seq<CodeExceptionTable>,
    pub attributes_count: u16,
    pub attributes: Seq<AttributeView>,
}

/// The mathematical value of an attribute.
pub open spec fn attribute_view(a: Attribute) -> AttributeView
    decreases a,
{
    AttributeView {
        name: a.attribute_name@,
        info: match a.info {
            AttributeItem::ConstantValue(cv) => AttributeItemView::ConstantValue(
                cv.constant_value_index,
            ),
            AttributeItem::Code(c) => AttributeItemView::Code(code_view(c)),
            AttributeItem::Unimplemented => AttributeItemView::Unimplemented,
            _ => AttributeItemView::Other,
        },
    }
}

/// The mathematical value of the body of a `Code` attribute.
pub open spec fn code_view(c: Code) -> CodeView
    decreases c,
{
    CodeView {
        max_stack: c.max_stack,
        max_locals: c.max_locals,
        code_length: c.code_length,
        code: c.code@,
        exception_table_length: c.exception_table_length,
        exception_table: c.exception_table@,
        attributes_count: c.attributes_count,
        attributes: attribute_views(c.attributes@),
    }
}

/// The mathematical values of a sequence of attributes.
pub open spec fn attribute_views(s: Seq<Attribute>) -> Seq<AttributeView>
    decreases s,
{
    if s.len() == 0 {
        Seq::empty()
    } else {
        attribute_views(s.drop_last()).push(attribute_view(s.last()))
    }
}

impl View for Code {
    type V = CodeView;

    open spec fn view(&self) -> CodeView {
        code_view(*self)
    }
}

impl View for Attribute {
    type V = AttributeView;

    open spec fn view(&self) -> AttributeView {
        attribute_view(*self)
    }
}

/// How many bytes of `b` lie at or after offset `pos`.
pub open spec fn remaining(b: Seq<u8>, pos: int) -> nat {
    if pos <= b.len() {
        (b.len() - pos) as nat
    } else {
        0
    }
}

/// `rest` behind `prefix`, a list that took `used` bytes.
pub open spec fn then_attributes(
    prefix: Seq<AttributeView>,
    used: nat,
    rest: Parsed<Seq<AttributeView>>,
) -> Parsed<Seq<AttributeView>> {
    match rest {
        Parsed::Done(s, k) => Parsed::Done(prefix + s, used + k),
        Parsed::Fail(e, at) => Parsed::Fail(e, at),
        Parsed::Refused => Parsed::Refused,
    }
}

/// What reading one attribute from the bytes `b` at offset `pos` comes to, with the
/// constant pool `pool`.
///
/// An attribute is a `u16` index of its name in the pool and a `u32` length, then its body.
/// A name index past the pool fails with `NoneError` once the six bytes are read; a name
/// entry that is not `Utf8` is refused. A `ConstantValue` body is a `u16`; a `Code` body is read as `code_at` says; any
/// other body is skipped by its length (where the new offset would not fit in a `usize`,
/// the skip does not happen). Running out of bytes fails with `IOError` at their end.
pub open spec fn attribute_at(b: Seq<u8>, pos: int, pool: Seq<Constant>) -> Parsed<AttributeView>
    decreases remaining(b, pos), 0nat, 0nat,
{
    if !has_bytes(b, pos, 6) {
        ran_out(b)
    } else {
        let name_index = be16(b, pos);
        let length = be32(b, pos + 2);
        let p = pos + 6;
        if name_index >= pool.len() {
            Parsed::Fail(ParseError::NoneError, pos + 6)
        } else {
            match pool[name_index] {
                Constant::Utf8(name) => if name@ == "ConstantValue"@ {
                    if has_bytes(b, p, 2) {
                        Parsed::Done(
                            AttributeView {
                                name: name@,
                                info: AttributeItemView::ConstantValue(be16(b, p) as u16),
                            },
                            8,
                        )
                    } else {
                        ran_out(b)
                    }
                } else if name@ == "Code"@ {
                    match code_at(b, p, pool) {
                        Parsed::Done(c, k) => Parsed::Done(
                            AttributeView { name: name@, info: AttributeItemView::Code(c) },
                            6 + k,
                        ),
                        Parsed::Fail(e, at) => Parsed::Fail(e, at),
                        Parsed::Refused => Parsed::Refused,
                    }
                } else {
                    Parsed::Done(
                        AttributeView { name: name@, info: AttributeItemView::Unimplemented },
                        if p + length <= usize::MAX {
                            (6 + length) as nat
                        } else {
                            6
                        },
                    )
                },
                _ => Parsed::Refused,
            }
        }
    }
}

/// The exception table of `count` entries at offset `p` of `b`, four `u16` each.
pub open spec fn exception_table_at(b: Seq<u8>, p: int, count: nat) -> Seq<CodeExceptionTable> {
    Seq::new(
        count,
        |i: int|
            CodeExceptionTable {
                start_pc: be16(b, p + 8 * i) as u16,
                end_pc: be16(b, p + 8 * i + 2) as u16,
                handler_pc: be16(b, p + 8 * i + 4) as u16,
                catch_type: be16(b, p + 8 * i + 6) as u16,
            },
    )
}

/// What reading the body of a `Code` attribute from `b` at offset `p` comes to: `u16`
/// max stack, `u16` max locals, `u32` code length and that many bytes of code, a `u16`
/// count and that many exception-table entries, a `u16` count and that many attributes.
pub open spec fn code_at(b: Seq<u8>, p: int, pool: Seq<Constant>) -> Parsed<CodeView>
    decreases remaining(b, p), 0nat, 0nat,
{
    if !has_bytes(b, p, 8) {
        ran_out(b)
    } else {
        let code_length = be32(b, p + 4);
        let q = p + 8;
        if !has_bytes(b, q, code_length) {
            ran_out(b)
        } else {
            let r = q + code_length;
            if !has_bytes(b, r, 2) {
                ran_out(b)
            } else {
                let table_length = be16(b, r);
                let t = r + 2;
                if !has_bytes(b, t, 8 * table_length) {
                    ran_out(b)
                } else {
                    let u = t + 8 * table_length;
                    if !has_bytes(b, u, 2) {
                        ran_out(b)
                    } else {
                        let count = be16(b, u);
                        match attributes_at(b, u + 2, pool, count as nat) {
                            Parsed::Done(attributes, k) => Parsed::Done(
                                CodeView {
                                    max_stack: be16(b, p) as u16,
                                    max_locals: be16(b, p + 2) as u16,
                                    code_length: code_length as u32,
                                    code: b.subrange(q, r),
                                    exception_table_length: table_length as u16,
                                    exception_table: exception_table_at(b, t, table_length as nat),
                                    attributes_count: count as u16,
                                    attributes,
                                },
                                (u + 2 + k - p) as nat,
                            ),
                            Parsed::Fail(e, at) => Parsed::Fail(e, at),
                            Parsed::Refused => Parsed::Refused,
                        }
                    }
                }
            }
        }
    }
}

/// What reading `count` attributes one after another from `b` at offset `pos` comes to.
pub open spec fn attributes_at(b: Seq<u8>, pos: int, pool: Seq<Constant>, count: nat) -> Parsed<
    Seq<AttributeView>,
>
    decreases remaining(b, pos), 1nat, count,
{
    if count == 0 {
        Parsed::Done(Seq::empty(), 0)
    } else {
        match attribute_at(b, pos, pool) {
            Parsed::Done(a, k) => then_attributes(
                seq![a],
                k,
                attributes_at(b, pos + k, pool, (count - 1) as nat),
            ),
            Parsed::Fail(e, at) => Parsed::Fail(e, at),
            Parsed::Refused => Parsed::Refused,
        }
    }
}

impl Attribute {
    /// Reads one attribute from `bytes` at offset `pos`, looking its name up in
    /// `constant_pool`; gives it with the offset just past it, or the error with the offset
    /// at which reading stopped. `None` where the bytes are refused.
    pub fn read(bytes: &[u8], pos: usize, constant_pool: &ConstantPool) -> (r: Option<
        Result<(Self, usize), (ParseError, usize)>,
    >)
        ensures
            read_as(attribute_at(bytes@, pos as int, constant_pool@), pos as int, r),
    {
        refusal_as_none(read_attribute(bytes, pos, constant_pool))
    }

    /// Reads one attribute from `bytes` at offset `pos`, looking its name up in
    /// `constant_pool`; returns it with the offset just past it, or the error with the
    /// offset at which reading stopped.
    pub fn from_bytes(bytes: &[u8], pos: usize, constant_pool: &ConstantPool) -> (res: Result<
        (Self, usize),
        (ParseError, usize),
    >)
        requires
            !(attribute_at(bytes@, pos as int, constant_pool@) is Refused),
        ensures
            parsed_as(attribute_at(bytes@, pos as int, constant_pool@), pos as int, res),
    {
        Attribute::read(bytes, pos, constant_pool).unwrap()
    }
}

/// Reads one attribute from `bytes` at offset `pos`.
fn read_attribute(bytes: &[u8], pos: usize, constant_pool: &ConstantPool) -> (res: Result<
    (Attribute, usize),
    ReadError,
>)
    ensures
        worked_as(attribute_at(bytes@, pos as int, constant_pool@), pos as int, res),
    decreases remaining(bytes@, pos as int), 0nat,
{
    let n = bytes.len();
    let attribute_name_index = lift(read_u16_at(bytes, pos))?;
    let length = lift(read_u32_at(bytes, pos + 2))?;
    let attribute_constant = match constant_pool.get(attribute_name_index as usize) {
        Some(c) => c,
        None => {
            return Err(ReadError::Failed(ParseError::NoneError, pos + 6));
        },
    };
    let utf8_string = match attribute_constant {
        Constant::Utf8(string) => string,
        _ => {
            return Err(ReadError::Refused);
        },
    };
    let p = pos + 6;
    let (info, end) = if str_eq(utf8_string.as_str(), "ConstantValue") {
        let constant_value_index = lift(read_u16_at(bytes, p))?;
        (AttributeItem::ConstantValue(ConstantValue { constant_value_index }), p + 2)
    } else if str_eq(utf8_string.as_str(), "Code") {
        let (code, end) = read_code(bytes, p, constant_pool)?;
        (AttributeItem::Code(code), end)
    } else {
        let end = match p.checked_add(length as usize) {
            Some(e) => e,
            None => p,
        };
        (AttributeItem::Unimplemented, end)
    };
    Ok((Attribute { attribute_name: utf8_string.clone(), info }, end))
}

/// Reads the body of a `Code` attribute from `bytes` at offset `p`.
fn read_code(bytes: &[u8], p: usize, constant_pool: &ConstantPool) -> (res: Result<
    (Code, usize),
    ReadError,
>)
    ensures
        worked_as(code_at(bytes@, p as int, constant_pool@), p as int, res),
    decreases remaining(bytes@, p as int), 2nat,
{
    let n = bytes.len();
    let max_stack = lift(read_u16_at(bytes, p))?;
    let max_locals = lift(read_u16_at(bytes, p + 2))?;
    let code_length = lift(read_u32_at(bytes, p + 4))?;
    let q = p + 8;
    if !(q <= n && n - q >= code_length as usize) {
        return Err(ReadError::Failed(ParseError::IOError, n));
    }
    let mut code: Vec<u8> = Vec::new();
    let mut i: usize = 0;
    while i < code_length as usize
        invariant
            i <= code_length,
            q + code_length <= bytes@.len(),
            n == bytes@.len(),
            code@ == bytes@.subrange(q as int, q + i),
        decreases code_length - i,
    {
        code.push(bytes[q + i]);
        i = i + 1;
        proof {
            assert(code@ =~= bytes@.subrange(q as int, q + i));
        }
    }
    let r = q + code_length as usize;
    let exception_table_length = lift(read_u16_at(bytes, r))?;
    let t = r + 2;
    if !(t <= n && (n - t) / 8 >= exception_table_length as usize) {
        return Err(ReadError::Failed(ParseError::IOError, n));
    }
    let mut exception_table: Vec<CodeExceptionTable> = Vec::new();
    let mut k: usize = 0;
    while k < exception_table_length as usize
        invariant
            k <= exception_table_length,
            t + 8 * exception_table_length <= bytes@.len(),
            n == bytes@.len(),
            exception_table@ == exception_table_at(bytes@, t as int, k as nat),
        decreases exception_table_length - k,
    {
        let e = t + 8 * k;
        let entry = CodeExceptionTable {
            start_pc: lift(read_u16_at(bytes, e))?,
            end_pc: lift(read_u16_at(bytes, e + 2))?,
            handler_pc: lift(read_u16_at(bytes, e + 4))?,
            catch_type: lift(read_u16_at(bytes, e + 6))?,
        };
        exception_table.push(entry);
        k = k + 1;
        proof {
            assert(exception_table@ =~= exception_table_at(bytes@, t as int, k as nat));
        }
    }
    let u = t + 8 * exception_table_length as usize;
    let attributes_count = lift(read_u16_at(bytes, u))?;
    let (attributes, cur) = read_attributes(bytes, u + 2, constant_pool, attributes_count)?;
    Ok(
        (
            Code {
                max_stack,
                max_locals,
                code_length,
                code,
                exception_table_length,
                exception_table,
                attributes_count,
                attributes,
            },
            cur,
        ),
    )
}

/// Reads `count` attributes one after another from `bytes` at offset `start`; returns them
/// with the offset just past the last.
pub(crate) fn read_attributes(
    bytes: &[u8],
    start: usize,
    constant_pool: &ConstantPool,
    count: u16,
) -> (res: Result<(Vec<Attribute>, usize), ReadError>)
    ensures
        match attributes_at(bytes@, start as int, constant_pool@, count as nat) {
            Parsed::Done(s, k) => res matches Ok((v, end)) && attribute_views(v@) == s && end
                == start + k,
            Parsed::Fail(e, at) => res matches Err(ReadError::Failed(e2, at2)) && e2 == e && at2
                == at,
            Parsed::Refused => res matches Err(ReadError::Refused),
        },
    decreases remaining(bytes@, start as int), 1nat,
{
    let ghost b = bytes@;
    let ghost pool = constant_pool@;
    let mut attributes: Vec<Attribute> = Vec::new();
    let mut cur = start;
    let mut j: u16 = 0;
    proof {
        assert(attribute_views(attributes@) =~= Seq::<AttributeView>::empty());
        let all = attributes_at(b, start as int, pool, count as nat);
        if let Parsed::Done(s, m) = all {
            assert(Seq::<AttributeView>::empty() + s =~= s);
        }
    }
    while j < count
        invariant
            b == bytes@,
            pool == constant_pool@,
            j <= count,
            start <= cur,
            attributes_at(b, start as int, pool, count as nat) == then_attributes(
                attribute_views(attributes@),
                (cur - start) as nat,
                attributes_at(b, cur as int, pool, (count - j) as nat),
            ),
        decreases count - j,
    {
        let ghost before = attribute_views(attributes@);
        let ghost old_attributes = attributes@;
        let (a, end) = read_attribute(bytes, cur, constant_pool)?;
        let ghost av = a@;
        attributes.push(a);
        proof {
            assert(attributes@.drop_last() =~= old_attributes);
            assert(attribute_views(attributes@) == before.push(av));
            let rest = attributes_at(b, end as int, pool, (count - j - 1) as nat);
            if let Parsed::Done(s, m) = rest {
                assert(before + (seq![av] + s) =~= before.push(av) + s);
            }
        }
        cur = end;
        j = j + 1;
    }
    proof {
        assert(attribute_views(attributes@) + Seq::<AttributeView>::empty() =~= attribute_views(
            attributes@,
        ));
    }
    Ok((attributes, cur))
}

/// The attributes of `attrs` by name, a later attribute taking the place of an earlier one
/// with the same name.
pub open spec fn attribute_map_of(attrs: Seq<AttributeView>) -> Map<Seq<char>, AttributeView>
    decreases attrs.len(),
{
    if attrs.len() == 0 {
        Map::empty()
    } else {
        attribute_map_of(attrs.drop_last()).insert(attrs.last().name, attrs.last())
    }
}

/// The mathematical value of a map of attributes by name.
pub open spec fn attribute_map_view(m: Map<Seq<char>, Attribute>) -> Map<Seq<char>, AttributeView> {
    m.map_values(|a: Attribute| a@)
}

/// Puts the attributes of `attrs` into a map by name, in order.
pub(crate) fn attribute_map_from(attrs: Vec<Attribute>) -> (m: StrMap<Attribute>)
    ensures
        attribute_map_view(m@) == attribute_map_of(attribute_views(attrs@)),
{
    let ghost all = attrs@;
    let total = attrs.len();
    let mut rest = attrs;
    let mut m: StrMap<Attribute> = StrMap::new();
    let mut i: usize = 0;
    proof {
        assert(all.take(0) =~= Seq::<Attribute>::empty());
        assert(attribute_map_view(m@) =~= Map::<Seq<char>, AttributeView>::empty());
        assert(rest@ =~= all.skip(0));
    }
    while rest.len() > 0
        invariant
            i <= all.len() == total,
            rest@ == all.skip(i as int),
            attribute_map_view(m@) == attribute_map_of(attribute_views(all.take(i as int))),
        decreases rest@.len(),
    {
        assert(rest@[0] == all[i as int]);
        let a = rest.remove(0);
        let ghost av = a@;
        let ghost old_map = m@;
        let name = a.attribute_name.clone();
        m.insert(name, a);
        proof {
            assert(all.take(i + 1).drop_last() =~= all.take(i as int));
            assert(all.take(i + 1).last() == all[i as int]);
            assert(attribute_views(all.take(i + 1)) == attribute_views(all.take(i as int)).push(
                av,
            ));
            assert(attribute_views(all.take(i + 1)).drop_last() =~= attribute_views(
                all.take(i as int),
            ));
            assert(attribute_map_view(m@) =~= attribute_map_view(old_map).insert(av.name, av));
        }
        i = i + 1;
        proof {
            assert(rest@ =~= all.skip(i as int));
        }
    }
    proof {
        assert(all.take(i as int) =~= all);
    }
    m
}

/// Bytes after an attribute do not change how it reads: where reading an attribute from
/// `b` at `pos` succeeds, reading from `b` followed by `more` at `pos` gives the same
/// attribute and length.
pub proof fn lemma_attribute_at_extend(b: Seq<u8>, more: Seq<u8>, pos: int, pool: Seq<Constant>)
    requires
        0 <= pos,
        attribute_at(b, pos, pool) is Done,
    ensures
        attribute_at(b + more, pos, pool) == attribute_at(b, pos, pool),
    decreases remaining(b, pos), 0nat, 0nat,
{
    lemma_reads_extend(b, more);
    assert(has_bytes(b, pos, 6));
    assert(has_bytes(b, pos, 2));
    assert(has_bytes(b, pos + 2, 4));
    let name_index = be16(b, pos);
    if let Constant::Utf8(name) = pool[name_index] {
        if name@ == "ConstantValue"@ {
            assert(has_bytes(b, pos + 6, 2));
        } else if name@ == "Code"@ {
            lemma_code_at_extend(b, more, pos + 6, pool);
        }
    }
}

/// Bytes after the body of a `Code` attribute do not change how it reads.
pub proof fn lemma_code_at_extend(b: Seq<u8>, more: Seq<u8>, p: int, pool: Seq<Constant>)
    requires
        0 <= p,
        code_at(b, p, pool) is Done,
    ensures
        code_at(b + more, p, pool) == code_at(b, p, pool),
    decreases remaining(b, p), 0nat, 0nat,
{
    lemma_reads_extend(b, more);
    let c = b + more;
    assert(has_bytes(b, p, 8));
    assert(has_bytes(b, p, 2));
    assert(has_bytes(b, p + 2, 2));
    assert(has_bytes(b, p + 4, 4));
    let code_length = be32(b, p + 4);
    let q = p + 8;
    let r = q + code_length;
    assert(has_bytes(b, r, 2));
    let table_length = be16(b, r);
    let t = r + 2;
    let u = t + 8 * table_length;
    assert(has_bytes(b, u, 2));
    assert forall|i: int| 0 <= i < table_length implies #[trigger] exception_table_at(
        c,
        t,
        table_length as nat,
    )[i] == exception_table_at(b, t, table_length as nat)[i] by {
        assert(has_bytes(b, t + 8 * i, 2));
        assert(has_bytes(b, t + 8 * i + 2, 2));
        assert(has_bytes(b, t + 8 * i + 4, 2));
        assert(has_bytes(b, t + 8 * i + 6, 2));
    }
    assert(exception_table_at(c, t, table_length as nat) =~= exception_table_at(
        b,
        t,
        table_length as nat,
    ));
    lemma_attributes_at_extend(b, more, u + 2, pool, be16(b, u) as nat);
}

/// Bytes after a list of attributes do not change how it reads.
pub proof fn lemma_attributes_at_extend(
    b: Seq<u8>,
    more: Seq<u8>,
    pos: int,
    pool: Seq<Constant>,
    count: nat,
)
    requires
        0 <= pos,
        attributes_at(b, pos, pool, count) is Done,
    ensures
        attributes_at(b + more, pos, pool, count) == attributes_at(b, pos, pool, count),
    decreases remaining(b, pos), 1nat, count,
{
    if count > 0 {
        lemma_attribute_at_extend(b, more, pos, pool);
        if let Parsed::Done(a, k) = attribute_at(b, pos, pool) {
            lemma_attributes_at_extend(b, more, pos + k, pool, (count - 1) as nat);
        }
    }
}

/// A failed read of an attribute stops at the end of the bytes where they ran out, and
/// otherwise past the start of the attribute and within the bytes: for a missing name,
/// just after the name index and the length.
pub proof fn lemma_attribute_at_stops(b: Seq<u8>, pos: int, pool: Seq<Constant>)
    ensures
        stops_within(attribute_at(b, pos, pool), b, pos),
    decreases remaining(b, pos), 0nat, 0nat,
{
    if has_bytes(b, pos, 6) {
        let name_index = be16(b, pos);
        if name_index < pool.len() {
            if let Constant::Utf8(name) = pool[name_index] {
                if name@ == "Code"@ {
                    lemma_code_at_stops(b, pos + 6, pool);
                }
            }
        }
    }
}

/// A failed read of the body of a `Code` attribute stops at the end of the bytes where they
/// ran out, and otherwise past the start of the body and within the bytes.
pub proof fn lemma_code_at_stops(b: Seq<u8>, p: int, pool: Seq<Constant>)
    ensures
        stops_within(code_at(b, p, pool), b, p),
    decreases remaining(b, p), 0nat, 0nat,
{
    if has_bytes(b, p, 8) {
        let code_length = be32(b, p + 4);
        let q = p + 8;
        let r = q + code_length;
        if has_bytes(b, q, code_length) && has_bytes(b, r, 2) {
            let table_length = be16(b, r);
            let t = r + 2;
            let u = t + 8 * table_length;
            if has_bytes(b, t, 8 * table_length) && has_bytes(b, u, 2) {
                lemma_attributes_at_stops(b, u + 2, pool, be16(b, u) as nat);
            }
        }
    }
}

/// A failed read of a list of attributes stops at the end of the bytes where they ran out,
/// and otherwise past the start of the list and within the bytes.
pub proof fn lemma_attributes_at_stops(b: Seq<u8>, pos: int, pool: Seq<Constant>, count: nat)
    ensures
        stops_within(attributes_at(b, pos, pool, count), b, pos),
    decreases remaining(b, pos), 1nat, count,
{
    if count > 0 {
        lemma_attribute_at_stops(b, pos, pool);
        if let Parsed::Done(a, k) = attribute_at(b, pos, pool) {
            lemma_attributes_at_stops(b, pos + k, pool, (count - 1) as nat);
        }
    }
}

/// A list of `count` attributes that is read holds `count` attributes.
pub proof fn lemma_attributes_at_count(b: Seq<u8>, pos: int, pool: Seq<Constant>, count: nat)
    requires
        attributes_at(b, pos, pool, count) is Done,
    ensures
        attributes_at(b, pos, pool, count) matches Parsed::Done(s, _) && s.len() == count,
    decreases count,
{
    if count > 0 {
        if let Parsed::Done(a, k) = attribute_at(b, pos, pool) {
            lemma_attributes_at_count(b, pos + k, pool, (count - 1) as nat);
        }
    }
}

/// True when the exception-table entry `e` is the eight bytes of `b` at `s`: its start,
/// end and handler offsets and its catch type, two bytes each, high byte first.
pub open spec fn entry_spelled(e: CodeExceptionTable, b: Seq<u8>, s: int) -> bool {
    &&& s + 8 <= b.len()
    &&& spelled_by(e.start_pc as int, b[s], b[s + 1])
    &&& spelled_by(e.end_pc as int, b[s + 2], b[s + 3])
    &&& spelled_by(e.handler_pc as int, b[s + 4], b[s + 5])
    &&& spelled_by(e.catch_type as int, b[s + 6], b[s + 7])
}

/// True when `c`, the body of a `Code` attribute read from `b` at `p`, is laid out in the
/// bytes as such a body is: max stack and max locals are the first two pairs of bytes; the
/// code length is the next four bytes, high byte first, and the code is that many bytes
/// after them; then come the table length, two bytes, and the exception table, whose entry
/// `i` is the eight bytes at `8 * i` past the start of the table, so that no two entries
/// share a byte; then the attribute count, two bytes.
pub open spec fn code_laid_out(c: CodeView, b: Seq<u8>, p: int) -> bool {
    let q = p + 8;
    let t = q + c.code_length + 2;
    let u = t + 8 * c.exception_table_length;
    &&& spelled_by(c.max_stack as int, b[p], b[p + 1])
    &&& spelled_by(c.max_locals as int, b[p + 2], b[p + 3])
    &&& c.code_length == b[p + 4] * 0x100_0000 + b[p + 5] * 0x1_0000 + b[p + 6] * 0x100 + b[p
        + 7]
    &&& c.code == b.subrange(q, q + c.code_length)
    &&& spelled_by(c.exception_table_length as int, b[t - 2], b[t - 1])
    &&& c.exception_table.len() == c.exception_table_length
    &&& forall|i: int|
        0 <= i < c.exception_table_length ==> #[trigger] entry_spelled(
            c.exception_table[i],
            b,
            t + 8 * i,
        )
    &&& u + 2 <= b.len()
    &&& spelled_by(c.attributes_count as int, b[u], b[u + 1])
    &&& c.attributes.len() == c.attributes_count
}

/// The body of a `Code` attribute that is read is laid out in the bytes as `code_laid_out`
/// says.
pub proof fn lemma_code_layout(b: Seq<u8>, p: int, pool: Seq<Constant>)
    requires
        0 <= p,
        code_at(b, p, pool) is Done,
    ensures
        code_at(b, p, pool) matches Parsed::Done(c, _) && code_laid_out(c, b, p),
{
    lemma_be16_spelled(b, p);
    lemma_be16_spelled(b, p + 2);
    lemma_be16_spelled(b, p + 4);
    lemma_be16_spelled(b, p + 6);
    let code_length = be32(b, p + 4);
    let q = p + 8;
    let r = q + code_length;
    lemma_be16_spelled(b, r);
    let table_length = be16(b, r);
    let t = r + 2;
    let u = t + 8 * table_length;
    lemma_be16_spelled(b, u);
    lemma_attributes_at_count(b, u + 2, pool, be16(b, u) as nat);
    let table = exception_table_at(b, t, table_length as nat);
    assert forall|i: int| 0 <= i < table_length implies #[trigger] entry_spelled(
        table[i],
        b,
        t + 8 * i,
    ) by {
        lemma_be16_spelled(b, t + 8 * i);
        lemma_be16_spelled(b, t + 8 * i + 2);
        lemma_be16_spelled(b, t + 8 * i + 4);
        lemma_be16_spelled(b, t + 8 * i + 6);
    }
}

/// True when the attribute `a`, read from `b` at `pos` with the pool `pool` and taking `k`
/// bytes, is laid out in the bytes as an attribute is: its name is the text of the `Utf8`
/// entry that the first two bytes index; a `ConstantValue` attribute holds the two bytes
/// after the six-byte header, high byte first, and takes eight bytes; a `Code` attribute
/// holds a body laid out as `code_laid_out` says; any other attribute is skipped.
pub open spec fn attribute_laid_out(
    a: AttributeView,
    k: nat,
    b: Seq<u8>,
    pos: int,
    pool: Seq<Constant>,
) -> bool {
    &&& pos + 6 <= b.len()
    &&& pool_utf8(pool, b[pos] * 0x100 + b[pos + 1]) == Some(a.name)
    &&& match a.info {
        AttributeItemView::ConstantValue(index) => a.name == "ConstantValue"@ && k == 8
            && pos + 8 <= b.len() && spelled_by(index as int, b[pos + 6], b[pos + 7]),
        AttributeItemView::Code(c) => a.name == "Code"@ && code_laid_out(c, b, pos + 6),
        AttributeItemView::Unimplemented => {
            let length = b[pos + 2] * 0x100_0000 + b[pos + 3] * 0x1_0000 + b[pos + 4] * 0x100 + b[pos
                + 5];
            &&& a.name != "ConstantValue"@
            &&& a.name != "Code"@
            &&& k == if pos + 6 + length <= usize::MAX {
                6 + length
            } else {
                6
            }
        },
        AttributeItemView::Other => false,
    }
}

/// An attribute that is read is laid out in the bytes as `attribute_laid_out` says.
pub proof fn lemma_attribute_layout(b: Seq<u8>, pos: int, pool: Seq<Constant>)
    requires
        0 <= pos,
        attribute_at(b, pos, pool) is Done,
    ensures
        attribute_at(b, pos, pool) matches Parsed::Done(a, k) && attribute_laid_out(
            a,
            k,
            b,
            pos,
            pool,
        ),
{
    lemma_be16_spelled(b, pos);
    if has_bytes(b, pos + 6, 2) {
        lemma_be16_spelled(b, pos + 6);
    }
    if code_at(b, pos + 6, pool) is Done {
        lemma_code_layout(b, pos + 6, pool);
    }
}

/// A map of attributes by name holds an attribute under exactly the names that occur.
pub proof fn lemma_attribute_map_names(attrs: Seq<AttributeView>, k: Seq<char>)
    ensures
        attribute_map_of(attrs).contains_key(k) <==> exists|i: int|
            0 <= i < attrs.len() && #[trigger] attrs[i].name == k,
    decreases attrs.len(),
{
    if attrs.len() > 0 {
        let t = attrs.drop_last();
        lemma_attribute_map_names(t, k);
        if attribute_map_of(attrs).contains_key(k) && attrs.last().name != k {
            let i = choose|i: int| 0 <= i < t.len() && #[trigger] t[i].name == k;
            assert(attrs[i].name == k);
        }
        if exists|i: int| 0 <= i < attrs.len() && #[trigger] attrs[i].name == k {
            let i = choose|i: int| 0 <= i < attrs.len() && #[trigger] attrs[i].name == k;
            if i < attrs.len() - 1 {
                assert(t[i] == attrs[i]);
            }
        }
    }
}

/// Under each name, a map of attributes by name holds the last attribute of that name.
pub proof fn lemma_attribute_map_last(attrs: Seq<AttributeView>, i: int)
    requires
        0 <= i < attrs.len(),
        forall|j: int| i < j < attrs.len() ==> #[trigger] attrs[j].name != attrs[i].name,
    ensures
        attribute_map_of(attrs).contains_key(attrs[i].name),
        attribute_map_of(attrs)[attrs[i].name] == attrs[i],
    decreases attrs.len(),
{
    if i < attrs.len() - 1 {
        let t = attrs.drop_last();
        assert(attrs[attrs.len() - 1].name != attrs[i].name);
        assert(t[i] == attrs[i]);
        assert forall|j: int| i < j < t.len() implies #[trigger] t[j].name != t[i].name by {
            assert(t[j] == attrs[j]);
        }
        lemma_attribute_map_last(t, i);
    }
}

} // verus!
