//! Field and method descriptors: the type strings of the class-file format,
//! such as `I`, `Ljava/lang/String;`, `[[D` and `(IJ)V`.

use crate::bytes::{at_char_start, lemma_at_char_start, lemma_str_bytes, str_slice};
use vstd::utf8::{
    is_char_boundary_iff_not_is_continuation_byte, pop_first_scalar, valid_first_scalar, valid_utf8,
    valid_utf8_split,
};
use crate::class::ParseError;
use crate::operand::OperandType;
use vstd::prelude::*;
use vstd::string::StringSliceAdditionalSpecFns;
use vstd::utf8::decode_utf8;

verus! {

/// `B`, the letter of `byte`.
pub const TAG_BYTE: u8 = 66;
/// `C`, the letter of `char`.
pub const TAG_CHAR: u8 = 67;
/// `D`, the letter of `double`.
pub const TAG_DOUBLE: u8 = 68;
/// `F`, the letter of `float`.
pub const TAG_FLOAT: u8 = 70;
/// `I`, the letter of `int`.
pub const TAG_INT: u8 = 73;
/// `J`, the letter of `long`.
pub const TAG_LONG: u8 = 74;
/// `S`, the letter of `short`.
pub const TAG_SHORT: u8 = 83;
/// `Z`, the letter of `boolean`.
pub const TAG_BOOL: u8 = 90;
/// `L`, which opens a class name.
pub const TAG_OBJECT: u8 = 76;
/// `[`, one array dimension.
pub const TAG_ARRAY: u8 = 91;
/// `;`, which closes a class name.
pub const TAG_END_OBJECT: u8 = 59;
/// `(`, which opens the parameters of a method descriptor.
pub const TAG_START_PARAMS: u8 = 40;
/// `)`, which closes the parameters of a method descriptor.
pub const TAG_END_PARAMS: u8 = 41;
/// `V`, the void return type.
pub const TAG_VOID: u8 = 86;

/// The primitive types of the virtual machine.
#[derive(Debug, Clone, Copy, PartialEq, Eq, Structural)]
pub enum BaseType {
    Byte,
    Char,
    Double,
    Float,
    Int,
    Long,
    Reference,
    Bool,
    Short,
}

/// True for the letters that name a base type in a descriptor: `B C D F I J S Z`.
pub open spec fn is_base_letter(c: u8) -> bool {
    c == TAG_BYTE || c == TAG_CHAR || c == TAG_DOUBLE || c == TAG_FLOAT || c == TAG_INT || c
        == TAG_LONG || c == TAG_SHORT || c == TAG_BOOL
}

/// The base type that a base-type letter names.
pub open spec fn base_type_of_letter(c: u8) -> BaseType {
    if c == TAG_BYTE {
        BaseType::Byte
    } else if c == TAG_CHAR {
        BaseType::Char
    } else if c == TAG_DOUBLE {
        BaseType::Double
    } else if c == TAG_FLOAT {
        BaseType::Float
    } else if c == TAG_INT {
        BaseType::Int
    } else if c == TAG_LONG {
        BaseType::Long
    } else if c == TAG_SHORT {
        BaseType::Short
    } else {
        BaseType::Bool
    }
}

/// What `BaseType::get` gives for a string with the UTF-8 bytes `s`.
pub open spec fn base_type_get(s: Seq<u8>) -> Result<BaseType, ParseError> {
    if s.len() == 1 && is_base_letter(s[0]) {
        Ok(base_type_of_letter(s[0]))
    } else {
        Err(ParseError::InvalidBaseType)
    }
}

/// The size in bytes of a value of a base type; a reference takes `ptr_length` bytes.
pub open spec fn base_type_size(base: BaseType, ptr_length: u8) -> usize {
    match base {
        BaseType::Byte => 1,
        BaseType::Char => 2,
        BaseType::Double => 8,
        BaseType::Float => 4,
        BaseType::Int => 4,
        BaseType::Long => 8,
        BaseType::Reference => ptr_length as usize,
        BaseType::Bool => 1,
        BaseType::Short => 2,
    }
}

/// Whether `c` is a base-type letter.
fn is_base_letter_byte(c: u8) -> (r: bool)
    ensures
        r == is_base_letter(c),
{
    c == TAG_BYTE || c == TAG_CHAR || c == TAG_DOUBLE || c == TAG_FLOAT || c == TAG_INT || c
        == TAG_LONG || c == TAG_SHORT || c == TAG_BOOL
}

impl BaseType {
    /// The base type named by the one-letter string `char`.
    pub fn get(char: &str) -> (res: Result<BaseType, ParseError>)
        ensures
            res == base_type_get(char.spec_bytes()),
    {
        let b = char.as_bytes();
        if b.len() != 1 {
            return Err(ParseError::InvalidBaseType);
        }
        let c = b[0];
        if c == TAG_BYTE {
            Ok(BaseType::Byte)
        } else if c == TAG_CHAR {
            Ok(BaseType::Char)
        } else if c == TAG_DOUBLE {
            Ok(BaseType::Double)
        } else if c == TAG_FLOAT {
            Ok(BaseType::Float)
        } else if c == TAG_INT {
            Ok(BaseType::Int)
        } else if c == TAG_LONG {
            Ok(BaseType::Long)
        } else if c == TAG_SHORT {
            Ok(BaseType::Short)
        } else if c == TAG_BOOL {
            Ok(BaseType::Bool)
        } else {
            Err(ParseError::InvalidBaseType)
        }
    }

    /// The size in bytes of a value of type `base`, where a reference takes `ptr_length` bytes.
    pub fn size_of(base: &BaseType, ptr_length: u8) -> (r: usize)
        ensures
            r == base_type_size(*base, ptr_length),
    {
        (match base {
            BaseType::Byte => 1u8,
            BaseType::Char => 2u8,
            BaseType::Double => 8u8,
            BaseType::Float => 4u8,
            BaseType::Int => 4u8,
            BaseType::Long => 8u8,
            BaseType::Reference => ptr_length,
            BaseType::Bool => 1u8,
            BaseType::Short => 2u8,
        }) as usize
    }
}

/// The type of a field, parameter or return value.
#[derive(Debug)]
pub enum FieldDescriptor {
    BaseType(BaseType),
    /// The binary name of a class, such as `java/lang/String`.
    ObjectType(String),
    /// An array type: its number of dimensions and its element type.
    ArrayType(ArrayType),
}

/// An array type: `dimensions` levels of array around `field_descriptor`.
#[derive(Debug)]
pub struct ArrayType {
    pub field_descriptor: Box<FieldDescriptor>,
    pub dimensions: u8,
}

/// A field descriptor as a mathematical value: class names as character sequences.
pub enum FieldDescriptorView {
    BaseType(BaseType),
    ObjectType(Seq<char>),
    ArrayType(u8, Box<FieldDescriptorView>),
}

/// The mathematical value of a field descriptor.
pub open spec fn field_descriptor_view(fd: FieldDescriptor) -> FieldDescriptorView
    decreases fd,
{
    match fd {
        FieldDescriptor::BaseType(t) => FieldDescriptorView::BaseType(t),
        FieldDescriptor::ObjectType(s) => FieldDescriptorView::ObjectType(s@),
        FieldDescriptor::ArrayType(a) => FieldDescriptorView::ArrayType(
            a.dimensions,
            Box::new(field_descriptor_view(*a.field_descriptor)),
        ),
    }
}

impl View for FieldDescriptor {
    type V = FieldDescriptorView;

    open spec fn view(&self) -> FieldDescriptorView {
        field_descriptor_view(*self)
    }
}

/// The number of `[` bytes that `b` starts with.
pub open spec fn leading_brackets(b: Seq<u8>) -> nat
    decreases b.len(),
{
    if b.len() > 0 && b[0] == TAG_ARRAY {
        1 + leading_brackets(b.subrange(1, b.len() as int))
    } else {
        0
    }
}

/// `leading_brackets` counts the `[` bytes before the first other byte.
pub proof fn lemma_leading_brackets(b: Seq<u8>)
    ensures
        leading_brackets(b) <= b.len(),
        forall|j: int| 0 <= j < leading_brackets(b) ==> b[j] == TAG_ARRAY,
        leading_brackets(b) < b.len() ==> b[leading_brackets(b) as int] != TAG_ARRAY,
    decreases b.len(),
{
    if b.len() > 0 && b[0] == TAG_ARRAY {
        let t = b.subrange(1, b.len() as int);
        lemma_leading_brackets(t);
        assert forall|j: int| 0 <= j < leading_brackets(b) implies b[j] == TAG_ARRAY by {
            if j > 0 {
                assert(b[j] == t[j - 1]);
            }
        }
    }
}

/// The element type of an array descriptor `b` with `d` leading `[`, or `None` where
/// `FieldDescriptor::parse` does not accept the descriptor.
pub open spec fn array_element_of(b: Seq<u8>, d: int) -> Option<FieldDescriptorView> {
    let n = b.len() as int;
    if is_base_letter(b[d]) {
        Some(FieldDescriptorView::BaseType(base_type_of_letter(b[d])))
    } else if b[d] == TAG_OBJECT && d + 1 <= n - 1 && at_char_start(b, n - 1) {
        Some(FieldDescriptorView::ObjectType(decode_utf8(b.subrange(d + 1, n - 1))))
    } else {
        None
    }
}

/// What `FieldDescriptor::parse` gives for a descriptor with the UTF-8 bytes `b`, or
/// `None` for a descriptor that it does not accept.
///
/// A base-type letter gives that base type (what follows it is not read); `L` gives the
/// class name between it and the last byte; `[` gives an array type whose dimension count
/// is the number of leading `[`, around a base type or a class name. An array type of more
/// than 255 dimensions is not a valid descriptor and is not accepted.
pub open spec fn field_descriptor_of(b: Seq<u8>) -> Option<FieldDescriptorView> {
    let n = b.len() as int;
    if n == 0 || !at_char_start(b, 1) {
        None
    } else if is_base_letter(b[0]) {
        Some(FieldDescriptorView::BaseType(base_type_of_letter(b[0])))
    } else if b[0] == TAG_OBJECT {
        if n >= 2 && at_char_start(b, n - 1) {
            Some(FieldDescriptorView::ObjectType(decode_utf8(b.subrange(1, n - 1))))
        } else {
            None
        }
    } else if b[0] == TAG_ARRAY {
        let d = leading_brackets(b) as int;
        if d < n && d <= 255 && at_char_start(b, d) && at_char_start(b, d + 1) {
            match array_element_of(b, d) {
                Some(e) => Some(FieldDescriptorView::ArrayType(d as u8, Box::new(e))),
                None => None,
            }
        } else {
            None
        }
    } else {
        None
    }
}

/// What `FieldDescriptor::matches_operand` answers: whether a value of type `fd` is held
/// in an operand slot of kind `operand`.
pub open spec fn descriptor_matches_operand(fd: FieldDescriptorView, operand: OperandType) -> bool {
    match fd {
        FieldDescriptorView::BaseType(t) => match t {
            BaseType::Byte => operand == OperandType::Int,
            BaseType::Char => operand == OperandType::Char,
            BaseType::Double => operand == OperandType::Double,
            BaseType::Float => operand == OperandType::Float,
            BaseType::Int => operand == OperandType::Int,
            BaseType::Long => operand == OperandType::Long,
            BaseType::Reference => false,
            BaseType::Bool => operand == OperandType::Int,
            BaseType::Short => operand == OperandType::Int,
        },
        FieldDescriptorView::ObjectType(_) => operand == OperandType::ClassReference,
        FieldDescriptorView::ArrayType(_, _) => operand == OperandType::ArrayReference,
    }
}

/// Whether byte offset `i` of `b` starts a character or ends the text.
fn char_start(b: &[u8], i: usize) -> (r: bool)
    ensures
        r == at_char_start(b@, i as int),
{
    i <= b.len() && (i == b.len() || b[i] < 0x80 || b[i] > 0xbf)
}

impl FieldDescriptor {
    /// Parses a field descriptor; `None` where the descriptor is one that `parse` does not
    /// accept.
    pub fn try_parse(desc: &str) -> (r: Option<FieldDescriptor>)
        ensures
            match field_descriptor_of(desc.spec_bytes()) {
                Some(v) => r matches Some(fd) && fd@ == v,
                None => r is None,
            },
    {
        let ghost sb = desc.spec_bytes();
        let b = desc.as_bytes();
        let n = b.len();
        proof {
            lemma_str_bytes(desc);
            lemma_at_char_start(sb, 0);
        }
        if n == 0 || !char_start(b, 1) {
            return None;
        }
        let first = b[0];
        if is_base_letter_byte(first) {
            match BaseType::get(str_slice(desc, 0, 1)) {
                Ok(t) => Some(FieldDescriptor::BaseType(t)),
                Err(_) => None,
            }
        } else if first == TAG_OBJECT {
            if n >= 2 && char_start(b, n - 1) {
                let name = str_slice(desc, 1, n - 1).to_owned();
                Some(FieldDescriptor::ObjectType(name))
            } else {
                None
            }
        } else if first == TAG_ARRAY {
            let mut i: usize = 0;
            while i < n && b[i] == TAG_ARRAY
                invariant
                    i <= n,
                    n == b@.len(),
                    forall|j: int| 0 <= j < i ==> b@[j] == TAG_ARRAY,
                decreases n - i,
            {
                i = i + 1;
            }
            proof {
                lemma_leading_brackets(sb);
                let d = leading_brackets(sb) as int;
                if (i as int) < d {
                    assert(sb[i as int] == TAG_ARRAY);
                } else if d < (i as int) {
                    assert(sb[d] == TAG_ARRAY);
                }
            }
            let dims = i;
            assert(dims as int == leading_brackets(sb));
            if !(dims < n && dims <= 255 && char_start(b, dims) && char_start(b, dims + 1)) {
                return None;
            }
            let c = b[dims];
            let element = if is_base_letter_byte(c) {
                match BaseType::get(str_slice(desc, dims, dims + 1)) {
                    Ok(t) => FieldDescriptor::BaseType(t),
                    Err(_) => {
                        return None;
                    },
                }
            } else if c == TAG_OBJECT && dims + 1 <= n - 1 && char_start(b, n - 1) {
                FieldDescriptor::ObjectType(str_slice(desc, dims + 1, n - 1).to_owned())
            } else {
                return None;
            };
            assert(element@ == array_element_of(sb, dims as int)->0);
            Some(
                FieldDescriptor::ArrayType(
                    ArrayType {
                        field_descriptor: Box::new(element),
                        dimensions: dims as u8,
                    },
                ),
            )
        } else {
            None
        }
    }

    /// Parses a field descriptor.
    pub fn parse(desc: &str) -> (res: Result<FieldDescriptor, ParseError>)
        requires
            field_descriptor_of(desc.spec_bytes()) is Some,
        ensures
            match res {
                Ok(fd) => fd@ == field_descriptor_of(desc.spec_bytes())->0,
                Err(_) => false,
            },
    {
        Ok(FieldDescriptor::try_parse(desc).unwrap())
    }

    /// Whether a value of this type is held in an operand slot of kind `operand`.
    pub fn matches_operand(&self, operand: OperandType) -> (r: bool)
        requires
            !(self@ matches FieldDescriptorView::BaseType(BaseType::Reference)),
        ensures
            r == descriptor_matches_operand(self@, operand),
    {
        match self {
            FieldDescriptor::BaseType(bt) => match bt {
                BaseType::Byte => operand == OperandType::Int,
                BaseType::Char => operand == OperandType::Char,
                BaseType::Double => operand == OperandType::Double,
                BaseType::Float => operand == OperandType::Float,
                BaseType::Int => operand == OperandType::Int,
                BaseType::Long => operand == OperandType::Long,
                BaseType::Reference => false,
                BaseType::Bool => operand == OperandType::Int,
                BaseType::Short => operand == OperandType::Int,
            },
            FieldDescriptor::ObjectType(_) => {
                if operand == OperandType::ClassReference {
                    true
                } else {
                    false
                }
            },
            FieldDescriptor::ArrayType(_) => {
                if operand == OperandType::ArrayReference {
                    true
                } else {
                    false
                }
            },
        }
    }
}


/// The return type of a method.
#[derive(Debug)]
pub enum MethodReturnType {
    Void,
    FieldDescriptor(FieldDescriptor),
}

/// The parameter types and the return type of a method.
#[derive(Debug)]
pub struct MethodDescriptor {
    pub parameters: Vec<FieldDescriptor>,
    pub return_type: MethodReturnType,
}

/// A method return type as a mathematical value.
pub enum MethodReturnTypeView {
    Void,
    FieldDescriptor(FieldDescriptorView),
}

/// A method descriptor as a mathematical value.
pub struct MethodDescriptorView {
    pub parameters: Seq<FieldDescriptorView>,
    pub return_type: MethodReturnTypeView,
}

impl View for MethodReturnType {
    type V = MethodReturnTypeView;

    open spec fn view(&self) -> MethodReturnTypeView {
        match self {
            MethodReturnType::Void => MethodReturnTypeView::Void,
            MethodReturnType::FieldDescriptor(fd) => MethodReturnTypeView::FieldDescriptor(fd@),
        }
    }
}

/// The mathematical values of a sequence of field descriptors.
pub open spec fn field_descriptor_views(s: Seq<FieldDescriptor>) -> Seq<FieldDescriptorView> {
    s.map_values(|fd: FieldDescriptor| fd@)
}

impl View for MethodDescriptor {
    type V = MethodDescriptorView;

    open spec fn view(&self) -> MethodDescriptorView {
        MethodDescriptorView {
            parameters: field_descriptor_views(self.parameters@),
            return_type: self.return_type@,
        }
    }
}

/// The offset of the first byte equal to `c` in `b` at or after offset `from`.
pub open spec fn first_byte_from(b: Seq<u8>, from: int, c: u8) -> Option<int>
    decreases b.len() - from,
{
    if from < 0 || from >= b.len() {
        None
    } else if b[from] == c {
        Some(from)
    } else {
        first_byte_from(b, from + 1, c)
    }
}

/// `first_byte_from` finds the first matching byte at or after `from`.
pub proof fn lemma_first_byte_from(b: Seq<u8>, from: int, c: u8)
    ensures
        match first_byte_from(b, from, c) {
            Some(j) => from <= j < b.len() && b[j] == c && forall|k: int|
                from <= k < j ==> b[k] != c,
            None => 0 <= from ==> forall|k: int| from <= k < b.len() ==> b[k] != c,
        },
    decreases b.len() - from,
{
    if 0 <= from < b.len() && b[from] != c {
        lemma_first_byte_from(b, from + 1, c);
    }
}

/// The offset of the first byte equal to `c` in `b` at or after offset `from`.
fn find_byte(b: &[u8], from: usize, c: u8) -> (r: Option<usize>)
    requires
        from <= b@.len(),
    ensures
        match first_byte_from(b@, from as int, c) {
            Some(j) => r == Some(j as usize),
            None => r is None,
        },
{
    let mut i = from;
    while i < b.len()
        invariant
            from <= i <= b@.len(),
            first_byte_from(b@, from as int, c) == first_byte_from(b@, i as int, c),
        decreases b@.len() - i,
    {
        if b[i] == c {
            return Some(i);
        }
        i = i + 1;
    }
    None
}

/// The length of the field descriptor that starts at offset `pos` of `b`, by the grammar
/// of field descriptors: a base-type letter is one byte, an object type runs from `L` up to
/// and including the next `;`, and an array type is a `[` followed by the field descriptor
/// of its component type. `None` where no field descriptor starts at `pos`.
pub open spec fn field_descriptor_len(b: Seq<u8>, pos: int) -> Option<int>
    decreases b.len() - pos,
{
    if pos < 0 || pos >= b.len() {
        None
    } else if is_base_letter(b[pos]) {
        Some(1)
    } else if b[pos] == TAG_OBJECT {
        match first_byte_from(b, pos + 1, TAG_END_OBJECT) {
            Some(j) => Some(j - pos + 1),
            None => None,
        }
    } else if b[pos] == TAG_ARRAY {
        match field_descriptor_len(b, pos + 1) {
            Some(k) => Some(k + 1),
            None => None,
        }
    } else {
        None
    }
}

/// A field descriptor takes at least one byte, lies within `b`, and ends in a base-type
/// letter or a `;`.
pub proof fn lemma_field_descriptor_len(b: Seq<u8>, pos: int)
    ensures
        field_descriptor_len(b, pos) matches Some(k) ==> 1 <= k && pos + k <= b.len() && (
        is_base_letter(b[pos + k - 1]) || b[pos + k - 1] == TAG_END_OBJECT),
    decreases b.len() - pos,
{
    if 0 <= pos < b.len() {
        lemma_first_byte_from(b, pos + 1, TAG_END_OBJECT);
        lemma_field_descriptor_len(b, pos + 1);
    }
}

/// The parameter types of a method descriptor `b`, read from offset `pos` up to the `)`
/// that closes them, together with the offset of that `)`: one field descriptor after
/// another, each taking the bytes that `field_descriptor_len` gives it. `None` where the
/// bytes end first or hold something other than a field descriptor.
pub open spec fn method_params(b: Seq<u8>, pos: int) -> Option<(Seq<FieldDescriptorView>, int)>
    decreases b.len() - pos,
{
    if pos < 0 || pos >= b.len() {
        None
    } else if b[pos] == TAG_END_PARAMS {
        Some((Seq::empty(), pos))
    } else {
        match field_descriptor_len(b, pos) {
            None => None,
            Some(k) => {
                proof {
                    lemma_field_descriptor_len(b, pos);
                }
                match field_descriptor_of(b.subrange(pos, pos + k)) {
                    None => None,
                    Some(fd) => match method_params(b, pos + k) {
                        Some((rest, close)) => Some((seq![fd] + rest, close)),
                        None => None,
                    },
                }
            },
        }
    }
}

/// `Some((s + t, close))` where `o` is `Some((t, close))`, else `None`.
pub open spec fn prepend_params(
    s: Seq<FieldDescriptorView>,
    o: Option<(Seq<FieldDescriptorView>, int)>,
) -> Option<(Seq<FieldDescriptorView>, int)> {
    match o {
        Some((t, close)) => Some((s + t, close)),
        None => None,
    }
}

/// The return type of a method descriptor `b` whose parameters close at offset `close`:
/// void where exactly a `V` follows, else the one field descriptor that takes all the rest.
pub open spec fn method_return(b: Seq<u8>, close: int) -> Option<MethodReturnTypeView> {
    let n = b.len() as int;
    if n == close + 2 && b[close + 1] == TAG_VOID {
        Some(MethodReturnTypeView::Void)
    } else {
        match field_descriptor_len(b, close + 1) {
            Some(k) => if close + 1 + k == n {
                match field_descriptor_of(b.subrange(close + 1, n)) {
                    Some(fd) => Some(MethodReturnTypeView::FieldDescriptor(fd)),
                    None => None,
                }
            } else {
                None
            },
            None => None,
        }
    }
}

/// What `MethodDescriptor::parse` gives for a method descriptor with the UTF-8 bytes `b`,
/// by the grammar `( {field descriptor} ) return-type`, where the return type is `V` or a
/// field descriptor; `None` for a descriptor that it does not accept.
///
/// Bytes with no `)` at all fail with `MalformedDescriptor`.
pub open spec fn method_descriptor_of(b: Seq<u8>) -> Option<
    Result<MethodDescriptorView, ParseError>,
> {
    match first_byte_from(b, 0, TAG_END_PARAMS) {
        None => Some(Err(ParseError::MalformedDescriptor)),
        Some(_) => if b[0] != TAG_START_PARAMS {
            None
        } else {
            match method_params(b, 1) {
                None => None,
                Some((params, close)) => match method_return(b, close) {
                    Some(ret) => Some(
                        Ok(MethodDescriptorView { parameters: params, return_type: ret }),
                    ),
                    None => None,
                },
            }
        },
    }
}

/// In UTF-8 text, the byte after an ASCII byte starts a character.
proof fn lemma_after_ascii(b: Seq<u8>, i: int)
    requires
        valid_utf8(b),
        0 <= i < b.len(),
        b[i] < 0x80,
    ensures
        at_char_start(b, i + 1),
{
    if i + 1 < b.len() {
        is_char_boundary_iff_not_is_continuation_byte(b, i);
        valid_utf8_split(b, i);
        let s = b.subrange(i, b.len() as int);
        let t = b.subrange(i + 1, b.len() as int);
        assert(s[0] == b[i]);
        assert(valid_utf8(s));
        assert(pop_first_scalar(s) =~= t);
        assert(valid_utf8(t));
        assert(t[0] == b[i + 1]);
        assert(valid_first_scalar(t));
    }
}

/// The length of the field descriptor that starts at offset `pos` of `b`.
fn descriptor_len(b: &[u8], pos: usize) -> (r: Option<usize>)
    ensures
        match field_descriptor_len(b@, pos as int) {
            Some(k) => r == Some(k as usize),
            None => r is None,
        },
    decreases b@.len() - pos,
{
    proof {
        lemma_field_descriptor_len(b@, pos as int);
        lemma_first_byte_from(b@, pos + 1, TAG_END_OBJECT);
    }
    if pos >= b.len() {
        return None;
    }
    let c = b[pos];
    if is_base_letter_byte(c) {
        Some(1)
    } else if c == TAG_OBJECT {
        match find_byte(b, pos + 1, TAG_END_OBJECT) {
            Some(j) => Some(j - pos + 1),
            None => None,
        }
    } else if c == TAG_ARRAY {
        match descriptor_len(b, pos + 1) {
            Some(k) => Some(k + 1),
            None => None,
        }
    } else {
        None
    }
}

impl MethodDescriptor {
    /// Parses a method descriptor; `None` where the descriptor is one that `parse` does not
    /// accept.
    pub fn try_parse(input: &str) -> (r: Option<Result<MethodDescriptor, ParseError>>)
        ensures
            match method_descriptor_of(input.spec_bytes()) {
                Some(Ok(v)) => r matches Some(Ok(md)) && md@ == v,
                Some(Err(e)) => r matches Some(Err(e2)) && e2 == e,
                None => r is None,
            },
    {
        let ghost sb = input.spec_bytes();
        let b = input.as_bytes();
        let n = b.len();
        proof {
            lemma_str_bytes(input);
            lemma_first_byte_from(sb, 0, TAG_END_PARAMS);
        }
        if find_byte(b, 0, TAG_END_PARAMS).is_none() {
            return Some(Err(ParseError::MalformedDescriptor));
        }
        if b[0] != TAG_START_PARAMS {
            return None;
        }
        let mut parameters: Vec<FieldDescriptor> = Vec::new();
        let mut pos: usize = 1;
        proof {
            lemma_after_ascii(sb, 0);
            assert(field_descriptor_views(parameters@) =~= Seq::<FieldDescriptorView>::empty());
            if let Some((all, close)) = method_params(sb, 1) {
                assert(Seq::<FieldDescriptorView>::empty() + all =~= all);
            }
        }
        while pos < n && b[pos] != TAG_END_PARAMS
            invariant
                n == sb.len(),
                b@ == sb,
                sb == input.spec_bytes(),
                valid_utf8(sb),
                first_byte_from(sb, 0, TAG_END_PARAMS) is Some,
                sb[0] == TAG_START_PARAMS,
                1 <= pos <= n,
                at_char_start(sb, pos as int),
                method_params(sb, 1) == prepend_params(
                    field_descriptor_views(parameters@),
                    method_params(sb, pos as int),
                ),
            decreases n - pos,
        {
            let ghost old_views = field_descriptor_views(parameters@);
            proof {
                lemma_field_descriptor_len(sb, pos as int);
            }
            let k = match descriptor_len(b, pos) {
                Some(k) => k,
                None => {
                    return None;
                },
            };
            proof {
                lemma_after_ascii(sb, pos + k - 1);
            }
            let fd = match FieldDescriptor::try_parse(str_slice(input, pos, pos + k)) {
                Some(fd) => fd,
                None => {
                    return None;
                },
            };
            let ghost fdv = fd@;
            parameters.push(fd);
            pos = pos + k;
            proof {
                assert(field_descriptor_views(parameters@) =~= old_views.push(fdv));
                if let Some((rest, close)) = method_params(sb, pos as int) {
                    assert(old_views + (seq![fdv] + rest) =~= old_views.push(fdv) + rest);
                }
            }
        }
        if pos >= n {
            return None;
        }
        let close = pos;
        proof {
            assert(field_descriptor_views(parameters@) + Seq::<FieldDescriptorView>::empty()
                =~= field_descriptor_views(parameters@));
            lemma_after_ascii(sb, close as int);
            lemma_field_descriptor_len(sb, close + 1);
        }
        let return_type = if n - close == 2 && b[close + 1] == TAG_VOID {
            MethodReturnType::Void
        } else {
            match descriptor_len(b, close + 1) {
                Some(k) => {
                    if k != n - (close + 1) {
                        return None;
                    }
                    match FieldDescriptor::try_parse(str_slice(input, close + 1, n)) {
                        Some(fd) => MethodReturnType::FieldDescriptor(fd),
                        None => {
                            return None;
                        },
                    }
                },
                None => {
                    return None;
                },
            }
        };
        Some(Ok(MethodDescriptor { parameters, return_type }))
    }

    /// Parses a method descriptor.
    ///
    /// A descriptor with no `)` fails with `MalformedDescriptor`. Any other descriptor must
    /// be a sentence of the method-descriptor grammar of the class-file format: `(`, field
    /// descriptors, `)`, and then `V` or one field descriptor with nothing after it. Bytes
    /// outside that grammar, such as `XI)V`, `(I)IV`, `()IJ` or `(Ljava/lang/String)V`,
    /// describe no method, so no parameter list or return type read from them would mean
    /// anything; they are left out by the precondition, and `try_parse` gives `None` for
    /// them.
    pub fn parse(input: &str) -> (res: Result<MethodDescriptor, ParseError>)
        requires
            method_descriptor_of(input.spec_bytes()) is Some,
        ensures
            match method_descriptor_of(input.spec_bytes())->0 {
                Ok(v) => res matches Ok(md) && md@ == v,
                Err(e) => res matches Err(e2) && e2 == e,
            },
    {
        MethodDescriptor::try_parse(input).unwrap()
    }
}

/// Putting a `[` in front of a field descriptor makes an array of that type: an array type
/// gets one more dimension with the same element type, and any other type becomes the
/// element type of a one-dimensional array. (An array type may have at most 255
/// dimensions.)
pub proof fn lemma_array_of_descriptor(b: Seq<u8>)
    requires
        field_descriptor_of(b) is Some,
        !(field_descriptor_of(b) matches Some(FieldDescriptorView::ArrayType(d, _)) && d >= 255),
    ensures
        field_descriptor_of(seq![TAG_ARRAY] + b) == Some(
            match field_descriptor_of(b)->0 {
                FieldDescriptorView::ArrayType(d, e) => FieldDescriptorView::ArrayType(
                    (d + 1) as u8,
                    e,
                ),
                other => FieldDescriptorView::ArrayType(1, Box::new(other)),
            },
        ),
{
    let n = b.len() as int;
    let c = seq![TAG_ARRAY] + b;
    assert(c.subrange(1, c.len() as int) =~= b);
    assert forall|j: int| 0 <= j < n implies c[j + 1] == b[j] by {}
    lemma_leading_brackets(b);
    let d = leading_brackets(b) as int;
    assert(leading_brackets(c) == 1 + d);
    if b[0] == TAG_OBJECT {
        assert(c.subrange(2, n) =~= b.subrange(1, n - 1));
    } else if b[0] == TAG_ARRAY && d < n && b[d] == TAG_OBJECT && d + 1 <= n - 1 {
        assert(c.subrange(d + 2, n) =~= b.subrange(d + 1, n - 1));
    }
}

/// A class name between `L` and `;` is the object type of that name.
pub proof fn lemma_object_descriptor(name: Seq<u8>)
    requires
        valid_utf8(name),
    ensures
        field_descriptor_of(seq![TAG_OBJECT] + name + seq![TAG_END_OBJECT]) == Some(
            FieldDescriptorView::ObjectType(decode_utf8(name)),
        ),
{
    let b = seq![TAG_OBJECT] + name + seq![TAG_END_OBJECT];
    let n = b.len() as int;
    assert(b.subrange(1, n - 1) =~= name);
    if name.len() > 0 {
        assert(b[1] == name[0]);
        assert(valid_first_scalar(name));
    }
}

/// `d` opening `[`, then `L`, a class name and `;`, is an array of `d` dimensions whose
/// element type is the object type named by the text strictly between that `L` and the
/// final `;`, for every `d` from 1 to 255.
pub proof fn lemma_object_array_descriptor(name: Seq<u8>, d: nat)
    requires
        valid_utf8(name),
        1 <= d <= 255,
    ensures
        field_descriptor_of(
            Seq::new(d, |_i: int| TAG_ARRAY) + (seq![TAG_OBJECT] + name + seq![TAG_END_OBJECT]),
        ) == Some(
            FieldDescriptorView::ArrayType(
                d as u8,
                Box::new(FieldDescriptorView::ObjectType(decode_utf8(name))),
            ),
        ),
    decreases d,
{
    let o = seq![TAG_OBJECT] + name + seq![TAG_END_OBJECT];
    lemma_object_descriptor(name);
    if d == 1 {
        assert(Seq::new(1, |_i: int| TAG_ARRAY) + o =~= seq![TAG_ARRAY] + o);
        lemma_array_of_descriptor(o);
    } else {
        lemma_object_array_descriptor(name, (d - 1) as nat);
        let prev = Seq::new((d - 1) as nat, |_i: int| TAG_ARRAY) + o;
        assert(Seq::new(d, |_i: int| TAG_ARRAY) + o =~= seq![TAG_ARRAY] + prev);
        lemma_array_of_descriptor(prev);
    }
}

/// True when `d` is exactly one field descriptor by the grammar, with nothing after it.
pub open spec fn is_field_descriptor(d: Seq<u8>) -> bool {
    field_descriptor_len(d, 0) == Some(d.len() as int)
}

/// The byte strings of `ds`, one after another.
pub open spec fn concat_all(ds: Seq<Seq<u8>>) -> Seq<u8>
    decreases ds.len(),
{
    if ds.len() == 0 {
        Seq::empty()
    } else {
        ds[0] + concat_all(ds.subrange(1, ds.len() as int))
    }
}

/// Where a field descriptor ends depends only on its own bytes.
proof fn lemma_len_window(b1: Seq<u8>, p1: int, b2: Seq<u8>, p2: int, k: int)
    requires
        field_descriptor_len(b1, p1) == Some(k),
        0 <= p2,
        p2 + k <= b2.len(),
        b2.subrange(p2, p2 + k) == b1.subrange(p1, p1 + k),
    ensures
        field_descriptor_len(b2, p2) == Some(k),
    decreases k,
{
    lemma_field_descriptor_len(b1, p1);
    let w = b1.subrange(p1, p1 + k);
    assert forall|j: int| 0 <= j < k implies #[trigger] b2[p2 + j] == b1[p1 + j] by {
        assert(b2.subrange(p2, p2 + k)[j] == b2[p2 + j]);
        assert(w[j] == b1[p1 + j]);
    }
    assert(b2[p2 + 0] == b1[p1 + 0]);
    if b1[p1] == TAG_OBJECT {
        lemma_first_byte_from(b1, p1 + 1, TAG_END_OBJECT);
        lemma_first_byte_from(b2, p2 + 1, TAG_END_OBJECT);
        assert(b2[p2 + (k - 1)] == b1[p1 + (k - 1)]);
        assert forall|j: int| p2 + 1 <= j < p2 + k - 1 implies b2[j] != TAG_END_OBJECT by {
            assert(b2[p2 + (j - p2)] == b1[p1 + (j - p2)]);
        }
    } else if b1[p1] == TAG_ARRAY {
        assert(b2.subrange(p2 + 1, p2 + 1 + (k - 1)) =~= b1.subrange(p1 + 1, p1 + 1 + (k - 1)))
            by {
            assert forall|j: int| 0 <= j < k - 1 implies #[trigger] b2.subrange(
                p2 + 1,
                p2 + 1 + (k - 1),
            )[j] == b1.subrange(p1 + 1, p1 + 1 + (k - 1))[j] by {
                assert(b2[p2 + (j + 1)] == b1[p1 + (j + 1)]);
            }
        }
        lemma_len_window(b1, p1 + 1, b2, p2 + 1, k - 1);
    }
}

proof fn lemma_params_of_parts(b: Seq<u8>, pos: int, ds: Seq<Seq<u8>>)
    requires
        1 <= pos,
        pos + concat_all(ds).len() < b.len(),
        b.subrange(pos, pos + concat_all(ds).len()) == concat_all(ds),
        b[pos + concat_all(ds).len()] == TAG_END_PARAMS,
        forall|i: int| 0 <= i < ds.len() ==> is_field_descriptor(#[trigger] ds[i]),
        forall|i: int| 0 <= i < ds.len() ==> (#[trigger] field_descriptor_of(ds[i])) is Some,
    ensures
        method_params(b, pos) == Some(
            (
                ds.map_values(|d: Seq<u8>| field_descriptor_of(d)->0),
                pos + concat_all(ds).len(),
            ),
        ),
    decreases ds.len(),
{
    let all = concat_all(ds);
    if ds.len() == 0 {
        assert(ds.map_values(|d: Seq<u8>| field_descriptor_of(d)->0) =~= Seq::<
            FieldDescriptorView,
        >::empty());
    } else {
        let d0 = ds[0];
        let rest = ds.subrange(1, ds.len() as int);
        let k = d0.len() as int;
        assert(is_field_descriptor(d0));
        assert(field_descriptor_of(d0) is Some);
        lemma_field_descriptor_len(d0, 0);
        assert(all == d0 + concat_all(rest));
        let window = b.subrange(pos, pos + all.len());
        assert(b.subrange(pos, pos + k) =~= d0) by {
            assert forall|j: int| 0 <= j < k implies b.subrange(pos, pos + k)[j] == d0[j] by {
                assert(window[j] == b[pos + j]);
            }
        }
        assert(d0.subrange(0, k) =~= d0);
        assert(b[pos] == d0[0]);
        lemma_len_window(d0, 0, b, pos, k);
        assert(b.subrange(pos + k, pos + k + concat_all(rest).len()) =~= concat_all(rest)) by {
            assert forall|j: int| 0 <= j < concat_all(rest).len() implies b.subrange(
                pos + k,
                pos + k + concat_all(rest).len(),
            )[j] == concat_all(rest)[j] by {
                assert(window[k + j] == b[pos + k + j]);
            }
        }
        assert forall|i: int| 0 <= i < rest.len() implies is_field_descriptor(#[trigger] rest[i])
            && field_descriptor_of(rest[i]) is Some by {
            assert(rest[i] == ds[i + 1]);
        }
        lemma_params_of_parts(b, pos + k, rest);
        assert(seq![field_descriptor_of(d0)->0] + rest.map_values(
            |d: Seq<u8>| field_descriptor_of(d)->0,
        ) =~= ds.map_values(|d: Seq<u8>| field_descriptor_of(d)->0));
    }
}

/// A method descriptor put together by the grammar reads back as its parts: `(`, the field
/// descriptors of `ds` one after another, `)`, and `V` or one more field descriptor `r`,
/// give one parameter for each descriptor of `ds`, in order, each the type that descriptor
/// parses to, and the return type `r` stands for.
pub proof fn lemma_method_descriptor_of_parts(ds: Seq<Seq<u8>>, r: Seq<u8>)
    requires
        forall|i: int| 0 <= i < ds.len() ==> is_field_descriptor(#[trigger] ds[i]),
        forall|i: int| 0 <= i < ds.len() ==> (#[trigger] field_descriptor_of(ds[i])) is Some,
        r == seq![TAG_VOID] || (is_field_descriptor(r) && field_descriptor_of(r) is Some),
    ensures
        method_descriptor_of(seq![TAG_START_PARAMS] + concat_all(ds) + seq![TAG_END_PARAMS] + r)
            == Some(
            Ok::<MethodDescriptorView, ParseError>(
                MethodDescriptorView {
                    parameters: ds.map_values(|d: Seq<u8>| field_descriptor_of(d)->0),
                    return_type: if r == seq![TAG_VOID] {
                        MethodReturnTypeView::Void
                    } else {
                        MethodReturnTypeView::FieldDescriptor(field_descriptor_of(r)->0)
                    },
                },
            ),
        ),
{
    let all = concat_all(ds);
    let b = seq![TAG_START_PARAMS] + all + seq![TAG_END_PARAMS] + r;
    let close = 1 + all.len() as int;
    let n = b.len() as int;
    assert(b[close] == TAG_END_PARAMS);
    lemma_first_byte_from(b, 0, TAG_END_PARAMS);
    assert(b.subrange(1, close) =~= all);
    lemma_params_of_parts(b, 1, ds);
    assert(b.subrange(close + 1, n) =~= r);
    if r == seq![TAG_VOID] {
        assert(b[close + 1] == TAG_VOID);
    } else {
        lemma_field_descriptor_len(r, 0);
        assert(r.subrange(0, r.len() as int) =~= r);
        lemma_len_window(r, 0, b, close + 1, r.len() as int);
        if n == close + 2 {
            assert(r.len() == 1);
            assert(b[close + 1] == r[0]);
            assert(r =~= seq![r[0]]);
        }
    }
}

/// The letter by which a field descriptor names a base type: `B` byte, `C` char, `D`
/// double, `F` float, `I` int, `J` long, `S` short, `Z` boolean; a reference has none.
pub open spec fn descriptor_letter(t: BaseType) -> Option<u8> {
    match t {
        BaseType::Byte => Some(66u8),
        BaseType::Char => Some(67u8),
        BaseType::Double => Some(68u8),
        BaseType::Float => Some(70u8),
        BaseType::Int => Some(73u8),
        BaseType::Long => Some(74u8),
        BaseType::Reference => None,
        BaseType::Bool => Some(90u8),
        BaseType::Short => Some(83u8),
    }
}

/// Reading a base-type letter and writing the type back give the same letter: for every
/// byte, `BaseType::get` and `FieldDescriptor::parse` accept it alone exactly when it is
/// the letter of a base type, and then give that type.
pub proof fn lemma_base_letters(c: u8, t: BaseType)
    ensures
        base_type_get(seq![c]) == Ok::<BaseType, ParseError>(t) <==> descriptor_letter(t) == Some(
            c,
        ),
        (base_type_get(seq![c]) is Ok) <==> is_base_letter(c),
        descriptor_letter(t) == Some(c) ==> field_descriptor_of(seq![c]) == Some(
            FieldDescriptorView::BaseType(t),
        ),
{
}

/// A descriptor of one base-type letter parses to the base type that `BaseType::get`
/// gives for that letter.
pub proof fn lemma_base_letter_descriptor(c: u8)
    requires
        is_base_letter(c),
    ensures
        base_type_get(seq![c]) matches Ok(t) && field_descriptor_of(seq![c]) == Some(
            FieldDescriptorView::BaseType(t),
        ),
{
}

/// `MethodDescriptor::parse` fails only with `MalformedDescriptor`, and exactly on the
/// descriptors without a `)`.
pub proof fn lemma_method_descriptor_error(b: Seq<u8>)
    ensures
        method_descriptor_of(b) matches Some(Err(e)) ==> e == ParseError::MalformedDescriptor,
        method_descriptor_of(b) == Some(
            Err::<MethodDescriptorView, ParseError>(ParseError::MalformedDescriptor),
        ) <==> forall|i: int| 0 <= i < b.len() ==> b[i] != TAG_END_PARAMS,
{
    lemma_first_byte_from(b, 0, TAG_END_PARAMS);
}

} // verus!
