//! Parsed classes, their constant pools, fields and methods.

use crate::attribute::{
    attribute_map_from, attribute_map_of, attribute_map_view, attributes_at,
    lemma_attributes_at_extend, lemma_attributes_at_stops, read_attributes, Attribute,
    AttributeView,
};
use crate::bytes::{
    be16, has_bytes, lemma_be16_spelled, lemma_reads_extend, lift, parsed_as, ran_out, read_as,
    read_u16_at, refusal_as_none, spelled_by, stops_within, worked_as, Parsed, ReadError,
};
use crate::constant::Constant;
use crate::descriptor::{field_descriptor_of, FieldDescriptor, FieldDescriptorView};
use crate::strmap::StrMap;
use std::rc::Rc;
use std::sync::RwLock;
use vstd::prelude::*;
use vstd::utf8::encode_utf8;

verus! {

/// Why reading part of a class file failed.
#[derive(Debug, PartialEq, Eq, Structural)]
pub enum ParseError {
    /// A base type letter was none of `B C D F I J S Z`.
    InvalidBaseType,
    /// A method descriptor had no `)`.
    MalformedDescriptor,
    /// The input ended before a value that was being read.
    IOError,
    /// A constant-pool index pointed past the end of the pool.
    NoneError,
    /// A `Utf8` constant held bytes that are not modified UTF-8 text.
    StringError,
}

/// The kind of member that a reference names.
#[derive(PartialEq, Eq, Structural)]
pub enum RefInfoType {
    MethodRef,
    FieldRef,
    InterfaceMethodRef,
}

/// A resolved reference to a field or method of a class.
pub struct RefInfo {
    pub class_name: String,
    pub name: String,
    pub descriptor: String,
    pub info_type: RefInfoType,
}

/// A resolved reference as a mathematical value.
pub struct RefInfoView {
    pub class_name: Seq<char>,
    pub name: Seq<char>,
    pub descriptor: Seq<char>,
    pub info_type: RefInfoType,
}

impl View for RefInfo {
    type V = RefInfoView;

    open spec fn view(&self) -> RefInfoView {
        RefInfoView {
            class_name: self.class_name@,
            name: self.name@,
            descriptor: self.descriptor@,
            info_type: self.info_type,
        }
    }
}

/// The constant pool of a class: its entries in order.
#[derive(Debug)]
pub struct ConstantPool {
    pool: Vec<Constant>,
}

impl View for ConstantPool {
    type V = Seq<Constant>;

    closed spec fn view(&self) -> Seq<Constant> {
        self.pool@
    }
}

/// The text of entry `i` of `pool`, when that entry is a `Utf8` constant.
pub open spec fn pool_utf8(pool: Seq<Constant>, i: int) -> Option<Seq<char>> {
    if 0 <= i < pool.len() {
        match pool[i] {
            Constant::Utf8(s) => Some(s@),
            _ => None,
        }
    } else {
        None
    }
}

/// The class name that entry `i` of `pool` refers to, when it is a `Class` constant whose
/// name entry is a `Utf8` constant.
pub open spec fn pool_class_name(pool: Seq<Constant>, i: int) -> Option<Seq<char>> {
    if 0 <= i < pool.len() {
        match pool[i] {
            Constant::Class(name_index) => pool_utf8(pool, name_index as int),
            _ => None,
        }
    } else {
        None
    }
}

/// The name and descriptor that entry `i` of `pool` refers to, when it is a
/// `NameAndType` constant whose two entries are `Utf8` constants.
pub open spec fn pool_name_and_type(pool: Seq<Constant>, i: int) -> Option<(Seq<char>, Seq<char>)> {
    if 0 <= i < pool.len() {
        match pool[i] {
            Constant::NameAndType(name_index, descriptor_index) => match (
                pool_utf8(pool, name_index as int),
                pool_utf8(pool, descriptor_index as int),
            ) {
                (Some(name), Some(descriptor)) => Some((name, descriptor)),
                _ => None,
            },
            _ => None,
        }
    } else {
        None
    }
}

/// The member reference of a class, a name and a descriptor, with the kind `kind`, that
/// `class_index` and `name_and_type_index` resolve to.
pub open spec fn pool_member_ref(
    pool: Seq<Constant>,
    class_index: u16,
    name_and_type_index: u16,
    kind: RefInfoType,
) -> Option<RefInfoView> {
    match (
        pool_class_name(pool, class_index as int),
        pool_name_and_type(pool, name_and_type_index as int),
    ) {
        (Some(class_name), Some((name, descriptor))) => Some(
            RefInfoView { class_name, name, descriptor, info_type: kind },
        ),
        _ => None,
    }
}

/// The reference that entry `i` of `pool` describes, when it is a `MethodRef`, `FieldRef`
/// or `InterfaceMethodRef` constant whose class and name-and-type entries resolve.
pub open spec fn pool_ref_info(pool: Seq<Constant>, i: int) -> Option<RefInfoView> {
    if 0 <= i < pool.len() {
        match pool[i] {
            Constant::MethodRef(c, nt) => pool_member_ref(pool, c, nt, RefInfoType::MethodRef),
            Constant::FieldRef(c, nt) => pool_member_ref(pool, c, nt, RefInfoType::FieldRef),
            Constant::InterfaceMethodRef(c, nt) => pool_member_ref(
                pool,
                c,
                nt,
                RefInfoType::InterfaceMethodRef,
            ),
            _ => None,
        }
    } else {
        None
    }
}

/// The text of a string slice that may be absent.
pub open spec fn opt_str_view(r: Option<&str>) -> Option<Seq<char>> {
    match r {
        Some(s) => Some(s@),
        None => None,
    }
}

impl ConstantPool {
    /// An empty pool.
    pub fn new() -> (r: Self)
        ensures
            r@ == Seq::<Constant>::empty(),
    {
        ConstantPool { pool: Vec::new() }
    }

    /// The entries of the pool.
    pub fn get_vec(&self) -> (r: &Vec<Constant>)
        ensures
            r@ == self@,
    {
        &self.pool
    }

    /// The entry at `index`, if there is one.
    pub fn get(&self, index: usize) -> (r: Option<&Constant>)
        ensures
            match r {
                Some(c) => index < self@.len() && *c == self@[index as int],
                None => index >= self@.len(),
            },
    {
        if index < self.pool.len() {
            Some(&self.pool[index])
        } else {
            None
        }
    }

    /// Puts `constant` at `index`, moving the entries from `index` on up by one.
    pub fn insert(&mut self, index: usize, constant: Constant)
        requires
            index <= old(self)@.len(),
        ensures
            final(self)@ == old(self)@.insert(index as int, constant),
    {
        self.pool.insert(index, constant)
    }

    /// Appends `constant` to the pool.
    pub fn push(&mut self, constant: Constant)
        ensures
            final(self)@ == old(self)@.push(constant),
    {
        self.pool.push(constant)
    }

    /// The name of the class that the `Class` entry at `index` refers to.
    pub fn resolve_class_info(&self, index: u16) -> (r: Option<&str>)
        ensures
            opt_str_view(r) == pool_class_name(self@, index as int),
    {
        let class_info = self.get(index as usize)?;
        if let Constant::Class(utf8_index) = class_info {
            if let Constant::Utf8(classname) = self.get(*utf8_index as usize)? {
                return Option::Some(classname.as_str());
            }
        }
        Option::None
    }

    /// The text of the `Utf8` entry at `index`.
    pub fn resolve_utf8(&self, index: u16) -> (r: Option<&str>)
        ensures
            opt_str_view(r) == pool_utf8(self@, index as int),
    {
        if let Constant::Utf8(string) = self.get(index as usize)? {
            Option::Some(string.as_str())
        } else {
            Option::None
        }
    }

    /// The name and descriptor that the `NameAndType` entry at `index` refers to.
    pub fn resolve_name_and_type(&self, index: u16) -> (r: Option<(&str, &str)>)
        ensures
            match r {
                Some((name, descriptor)) => pool_name_and_type(self@, index as int) == Some(
                    (name@, descriptor@),
                ),
                None => pool_name_and_type(self@, index as int) is None,
            },
    {
        if let Constant::NameAndType(name_index, descriptor_index) = self.get(index as usize)? {
            if let Constant::Utf8(name) = self.get(*name_index as usize)? {
                if let Constant::Utf8(descriptor) = self.get(*descriptor_index as usize)? {
                    return Option::Some((name.as_str(), descriptor.as_str()));
                }
            }
        }
        Option::None
    }

    /// The class name, member name, descriptor and kind of the `MethodRef`, `FieldRef` or
    /// `InterfaceMethodRef` entry at `index`.
    pub fn resolve_ref_info(&self, index: usize) -> (r: Option<RefInfo>)
        ensures
            match r {
                Some(info) => pool_ref_info(self@, index as int) == Some(info@),
                None => pool_ref_info(self@, index as int) is None,
            },
    {
        let (class_index, name_and_type_index, info_type) = match self.get(index)? {
            Constant::MethodRef(c, nt) => (*c, *nt, RefInfoType::MethodRef),
            Constant::FieldRef(c, nt) => (*c, *nt, RefInfoType::FieldRef),
            Constant::InterfaceMethodRef(c, nt) => (*c, *nt, RefInfoType::InterfaceMethodRef),
            _ => return Option::None,
        };
        let class = self.resolve_class_info(class_index)?;
        let name_and_type = self.resolve_name_and_type(name_and_type_index)?;
        Option::Some(
            RefInfo {
                class_name: class.to_owned(),
                name: name_and_type.0.to_owned(),
                descriptor: name_and_type.1.to_owned(),
                info_type,
            },
        )
    }
}


/// The access flags of classes, fields and methods, each one bit of a `u16`.
#[allow(non_camel_case_types)]
pub enum AccessFlags {
    PUBLIC,
    PRIVATE,
    PROTECTED,
    STATIC,
    FINAL,
    SYNCHRONIZED,
    BRIDGE,
    VARARGS,
    NATIVE,
    ABSTRACT,
    STRICT,
    SYNTHETIC,
}

/// The bit of a `u16` that stands for an access flag.
pub open spec fn access_flag_mask(f: AccessFlags) -> u16 {
    match f {
        AccessFlags::PUBLIC => 0x1,
        AccessFlags::PRIVATE => 0x2,
        AccessFlags::PROTECTED => 0x4,
        AccessFlags::STATIC => 0x8,
        AccessFlags::FINAL => 0x10,
        AccessFlags::SYNCHRONIZED => 0x20,
        AccessFlags::BRIDGE => 0x40,
        AccessFlags::VARARGS => 0x80,
        AccessFlags::NATIVE => 0x100,
        AccessFlags::ABSTRACT => 0x400,
        AccessFlags::STRICT => 0x800,
        AccessFlags::SYNTHETIC => 0x1000,
    }
}

/// True when the set of access flags `flags` holds `f`.
pub open spec fn has_access_flag(flags: u16, f: AccessFlags) -> bool {
    flags & access_flag_mask(f) == access_flag_mask(f)
}

impl AccessFlags {
    /// The bit that stands for this flag.
    pub fn mask(&self) -> (r: u16)
        ensures
            r == access_flag_mask(*self),
    {
        match self {
            AccessFlags::PUBLIC => 0x1,
            AccessFlags::PRIVATE => 0x2,
            AccessFlags::PROTECTED => 0x4,
            AccessFlags::STATIC => 0x8,
            AccessFlags::FINAL => 0x10,
            AccessFlags::SYNCHRONIZED => 0x20,
            AccessFlags::BRIDGE => 0x40,
            AccessFlags::VARARGS => 0x80,
            AccessFlags::NATIVE => 0x100,
            AccessFlags::ABSTRACT => 0x400,
            AccessFlags::STRICT => 0x800,
            AccessFlags::SYNTHETIC => 0x1000,
        }
    }

    /// Whether `flags` has the `NATIVE` flag.
    pub fn is_native(flags: u16) -> (r: bool)
        ensures
            r == has_access_flag(flags, AccessFlags::NATIVE),
    {
        flags & 0x100 == 0x100
    }

    /// Whether `flags` has the `PROTECTED` flag.
    pub fn is_protected(flags: u16) -> (r: bool)
        ensures
            r == has_access_flag(flags, AccessFlags::PROTECTED),
    {
        flags & 0x4 == 0x4
    }
}

/// What looking up a member of a class can fail with.
#[derive(Debug, PartialEq, Eq, Structural)]
pub enum ClassError {
    FieldNotFound,
    MethodNotFound,
}

/// A method of a class.
#[derive(Debug)]
pub struct Method {
    pub access_flags: u16,
    pub name: String,
    pub name_index: u16,
    pub descriptor: String,
    pub descriptor_index: u16,
    pub attributes_count: u16,
    /// The method's attributes by name.
    pub attribute_map: StrMap<Attribute>,
}

/// A method as a mathematical value.
pub struct MethodView {
    pub access_flags: u16,
    pub name: Seq<char>,
    pub name_index: u16,
    pub descriptor: Seq<char>,
    pub descriptor_index: u16,
    pub attributes_count: u16,
    pub attribute_map: Map<Seq<char>, AttributeView>,
}

impl View for Method {
    type V = MethodView;

    open spec fn view(&self) -> MethodView {
        MethodView {
            access_flags: self.access_flags,
            name: self.name@,
            name_index: self.name_index,
            descriptor: self.descriptor@,
            descriptor_index: self.descriptor_index,
            attributes_count: self.attributes_count,
            attribute_map: attribute_map_view(self.attribute_map@),
        }
    }
}

/// What reading a `u16` constant-pool index at `p` of `b` and looking up the `Utf8` entry
/// it names comes to: `IOError` where the bytes run out, `NoneError` just after the index
/// for an index past the pool, a refusal for an entry that is not `Utf8`, else the index
/// and the entry's text.
pub open spec fn utf8_index_at(b: Seq<u8>, p: int, pool: Seq<Constant>) -> Parsed<
    (u16, Seq<char>),
> {
    if !has_bytes(b, p, 2) {
        ran_out(b)
    } else if be16(b, p) >= pool.len() {
        Parsed::Fail(ParseError::NoneError, p + 2)
    } else {
        match pool[be16(b, p)] {
            Constant::Utf8(s) => Parsed::Done((be16(b, p) as u16, s@), 2),
            _ => Parsed::Refused,
        }
    }
}

/// What `Method::from_bytes` reads from `b` at offset `pos` with the pool `pool`: `u16`
/// access flags, the `u16` index of the `Utf8` name, the `u16` index of the `Utf8`
/// descriptor, a `u16` count and that many attributes.
pub open spec fn method_at(b: Seq<u8>, pos: int, pool: Seq<Constant>) -> Parsed<MethodView> {
    if !has_bytes(b, pos, 2) {
        ran_out(b)
    } else {
        match utf8_index_at(b, pos + 2, pool) {
            Parsed::Refused => Parsed::Refused,
            Parsed::Fail(e, at) => Parsed::Fail(e, at),
            Parsed::Done((name_index, name), _) => match utf8_index_at(b, pos + 4, pool) {
                Parsed::Refused => Parsed::Refused,
                Parsed::Fail(e, at) => Parsed::Fail(e, at),
                Parsed::Done((descriptor_index, descriptor), _) => if !has_bytes(b, pos + 6, 2) {
                    ran_out(b)
                } else {
                    let count = be16(b, pos + 6);
                    match attributes_at(b, pos + 8, pool, count as nat) {
                        Parsed::Refused => Parsed::Refused,
                        Parsed::Fail(e, at) => Parsed::Fail(e, at),
                        Parsed::Done(attrs, k) => Parsed::Done(
                            MethodView {
                                access_flags: be16(b, pos) as u16,
                                name,
                                name_index,
                                descriptor,
                                descriptor_index,
                                attributes_count: count as u16,
                                attribute_map: attribute_map_of(attrs),
                            },
                            8 + k,
                        ),
                    }
                },
            },
        }
    }
}

/// Reads a `u16` index at `p` and gives a copy of the text of the `Utf8` entry of
/// `constant_pool` that it names.
fn read_utf8_index(bytes: &[u8], p: usize, constant_pool: &ConstantPool) -> (res: Result<
    (u16, String),
    ReadError,
>)
    ensures
        match utf8_index_at(bytes@, p as int, constant_pool@) {
            Parsed::Done((i, s), _) => res matches Ok((j, t)) && i == j && t@ == s,
            Parsed::Fail(e, at) => res matches Err(ReadError::Failed(e2, at2)) && e2 == e && at2
                == at,
            Parsed::Refused => res matches Err(ReadError::Refused),
        },
{
    let n = bytes.len();
    let index = lift(read_u16_at(bytes, p))?;
    match constant_pool.get(index as usize) {
        Some(Constant::Utf8(string)) => Ok((index, string.clone())),
        Some(_) => Err(ReadError::Refused),
        None => Err(ReadError::Failed(ParseError::NoneError, p + 2)),
    }
}

/// Reads a method from `bytes` at offset `pos`.
fn read_method(bytes: &[u8], pos: usize, constant_pool: &ConstantPool) -> (res: Result<
    (Method, usize),
    ReadError,
>)
    ensures
        worked_as(method_at(bytes@, pos as int, constant_pool@), pos as int, res),
{
    let n = bytes.len();
    let access_flags = lift(read_u16_at(bytes, pos))?;
    let (name_index, name) = read_utf8_index(bytes, pos + 2, constant_pool)?;
    let (descriptor_index, descriptor) = read_utf8_index(bytes, pos + 4, constant_pool)?;
    let attributes_count = lift(read_u16_at(bytes, pos + 6))?;
    let (attrs, end) = read_attributes(bytes, pos + 8, constant_pool, attributes_count)?;
    let attribute_map = attribute_map_from(attrs);
    Ok(
        (
            Method {
                access_flags,
                name,
                name_index,
                descriptor,
                descriptor_index,
                attributes_count,
                attribute_map,
            },
            end,
        ),
    )
}

impl Method {
    /// Reads a method from `bytes` at offset `pos`, looking names up in `constant_pool`;
    /// gives it with the offset just past it, or the error with the offset at which reading
    /// stopped. `None` where the bytes are refused.
    pub fn read(bytes: &[u8], pos: usize, constant_pool: &ConstantPool) -> (r: Option<
        Result<(Self, usize), (ParseError, usize)>,
    >)
        ensures
            read_as(method_at(bytes@, pos as int, constant_pool@), pos as int, r),
    {
        refusal_as_none(read_method(bytes, pos, constant_pool))
    }

    /// Reads a method from `bytes` at offset `pos`, looking names up in `constant_pool`;
    /// returns it with the offset just past it, or the error with the offset at which
    /// reading stopped.
    pub fn from_bytes(bytes: &[u8], pos: usize, constant_pool: &ConstantPool) -> (res: Result<
        (Self, usize),
        (ParseError, usize),
    >)
        requires
            !(method_at(bytes@, pos as int, constant_pool@) is Refused),
        ensures
            parsed_as(method_at(bytes@, pos as int, constant_pool@), pos as int, res),
    {
        Method::read(bytes, pos, constant_pool).unwrap()
    }
}

/// A field of a class.
#[derive(Debug)]
pub struct FieldInfo {
    pub access_flags: u16,
    pub name: String,
    pub field_descriptor: FieldDescriptor,
    /// The field's attributes by name.
    pub attribute_map: StrMap<Attribute>,
}

/// A field as a mathematical value.
pub struct FieldInfoView {
    pub access_flags: u16,
    pub name: Seq<char>,
    pub field_descriptor: FieldDescriptorView,
    pub attribute_map: Map<Seq<char>, AttributeView>,
}

impl View for FieldInfo {
    type V = FieldInfoView;

    open spec fn view(&self) -> FieldInfoView {
        FieldInfoView {
            access_flags: self.access_flags,
            name: self.name@,
            field_descriptor: self.field_descriptor@,
            attribute_map: attribute_map_view(self.attribute_map@),
        }
    }
}

/// What `FieldInfo::from_bytes` reads from `b` at offset `pos` with the pool `pool`: `u16`
/// access flags, the `u16` index of the `Utf8` name, the `u16` index of the `Utf8`
/// field descriptor, which is then parsed, a `u16` count and that many attributes.
pub open spec fn field_info_at(b: Seq<u8>, pos: int, pool: Seq<Constant>) -> Parsed<FieldInfoView> {
    if !has_bytes(b, pos, 2) {
        ran_out(b)
    } else {
        match utf8_index_at(b, pos + 2, pool) {
            Parsed::Refused => Parsed::Refused,
            Parsed::Fail(e, at) => Parsed::Fail(e, at),
            Parsed::Done((_, name), _) => match utf8_index_at(b, pos + 4, pool) {
                Parsed::Refused => Parsed::Refused,
                Parsed::Fail(e, at) => Parsed::Fail(e, at),
                Parsed::Done((_, descriptor), _) => match field_descriptor_of(
                    encode_utf8(descriptor),
                ) {
                    None => Parsed::Refused,
                    Some(field_descriptor) => if !has_bytes(b, pos + 6, 2) {
                        ran_out(b)
                    } else {
                        let count = be16(b, pos + 6);
                        match attributes_at(b, pos + 8, pool, count as nat) {
                            Parsed::Refused => Parsed::Refused,
                            Parsed::Fail(e, at) => Parsed::Fail(e, at),
                            Parsed::Done(attrs, k) => Parsed::Done(
                                FieldInfoView {
                                    access_flags: be16(b, pos) as u16,
                                    name,
                                    field_descriptor,
                                    attribute_map: attribute_map_of(attrs),
                                },
                                8 + k,
                            ),
                        }
                    },
                },
            },
        }
    }
}

/// Reads a field from `bytes` at offset `pos`.
fn read_field_info(bytes: &[u8], pos: usize, constant_pool: &ConstantPool) -> (res: Result<
    (FieldInfo, usize),
    ReadError,
>)
    ensures
        worked_as(field_info_at(bytes@, pos as int, constant_pool@), pos as int, res),
{
    let n = bytes.len();
    let access_flags = lift(read_u16_at(bytes, pos))?;
    let (_name_index, name) = read_utf8_index(bytes, pos + 2, constant_pool)?;
    let (_descriptor_index, descriptor) = read_utf8_index(bytes, pos + 4, constant_pool)?;
    let field_descriptor = match FieldDescriptor::try_parse(descriptor.as_str()) {
        Some(fd) => fd,
        None => {
            return Err(ReadError::Refused);
        },
    };
    let count = lift(read_u16_at(bytes, pos + 6))?;
    let (attrs, end) = read_attributes(bytes, pos + 8, constant_pool, count)?;
    let attribute_map = attribute_map_from(attrs);
    Ok((FieldInfo { access_flags, name, field_descriptor, attribute_map }, end))
}

impl FieldInfo {
    /// Reads a field from `bytes` at offset `pos`, looking names up in `constant_pool`;
    /// gives it with the offset just past it, or the error with the offset at which reading
    /// stopped. `None` where the bytes are refused.
    pub fn read(bytes: &[u8], pos: usize, constant_pool: &ConstantPool) -> (r: Option<
        Result<(Self, usize), (ParseError, usize)>,
    >)
        ensures
            read_as(field_info_at(bytes@, pos as int, constant_pool@), pos as int, r),
    {
        refusal_as_none(read_field_info(bytes, pos, constant_pool))
    }

    /// Reads a field from `bytes` at offset `pos`, looking names up in `constant_pool`;
    /// returns it with the offset just past it, or the error with the offset at which
    /// reading stopped.
    pub fn from_bytes(bytes: &[u8], pos: usize, constant_pool: &ConstantPool) -> (res: Result<
        (Self, usize),
        (ParseError, usize),
    >)
        requires
            !(field_info_at(bytes@, pos as int, constant_pool@) is Refused),
        ensures
            parsed_as(field_info_at(bytes@, pos as int, constant_pool@), pos as int, res),
    {
        FieldInfo::read(bytes, pos, constant_pool).unwrap()
    }
}

/// A field of a class together with where its value lies in an object.
#[derive(Debug)]
pub struct ObjectField {
    pub offset: isize,
    pub info: FieldInfo,
}

/// `std::sync::RwLock`, a reader-writer lock; its contents are not seen here.
#[verifier::external_type_specification]
#[verifier::external_body]
#[verifier::reject_recursive_types(T)]
pub struct ExRwLock<T: ?Sized>(RwLock<T>);

/// `Rc::clone`: another pointer to the same value, which is therefore equal to it.
#[verifier::external_body]
fn rc_clone<T>(r: &Rc<T>) -> (res: Rc<T>)
    ensures
        res == *r,
{
    Rc::clone(r)
}

/// A loaded class.
#[derive(Debug)]
pub struct Class {
    pub constant_pool: ConstantPool,
    pub access_flags: u16,
    pub this_class: String,
    pub super_class: String,
    /// Indices into the constant pool.
    pub interfaces: Vec<u16>,
    /// The fields by name.
    pub field_map: StrMap<ObjectField>,
    /// The methods by name, then by descriptor.
    pub method_map: StrMap<StrMap<Rc<Method>>>,
    /// The attributes by name.
    pub attribute_map: StrMap<Attribute>,
    pub static_been_seen: Rc<RwLock<bool>>,
    pub heap_size: usize,
    /// The heap size of this class together with its superclasses.
    pub full_heap_size: usize,
}

/// True when the class with the method map `methods` has a method `name` with the
/// descriptor `descriptor`.
pub open spec fn has_method_in(
    methods: Map<Seq<char>, StrMap<Rc<Method>>>,
    name: Seq<char>,
    descriptor: Seq<char>,
) -> bool {
    methods.contains_key(name) && methods[name]@.contains_key(descriptor)
}

impl Class {
    /// The field called `name`.
    pub fn get_field(&self, name: &String) -> (r: Result<&ObjectField, ClassError>)
        ensures
            match r {
                Ok(f) => self.field_map@.contains_key(name@) && self.field_map@[name@] == *f,
                Err(e) => e == ClassError::FieldNotFound && !self.field_map@.contains_key(name@),
            },
    {
        match self.field_map.get(name.as_str()) {
            Some(f) => Ok(f),
            None => Err(ClassError::FieldNotFound),
        }
    }

    /// The method called `name` with the descriptor `descriptor`.
    pub fn get_method(&self, name: &str, descriptor: &str) -> (r: Result<Rc<Method>, ClassError>)
        ensures
            match r {
                Ok(m) => has_method_in(self.method_map@, name@, descriptor@)
                    && self.method_map@[name@]@[descriptor@] == m,
                Err(e) => e == ClassError::MethodNotFound && !has_method_in(
                    self.method_map@,
                    name@,
                    descriptor@,
                ),
            },
    {
        let by_descriptor = match self.method_map.get(name) {
            Some(m) => m,
            None => {
                return Err(ClassError::MethodNotFound);
            },
        };
        match by_descriptor.get(descriptor) {
            Some(m) => Ok(rc_clone(m)),
            None => Err(ClassError::MethodNotFound),
        }
    }

    /// Whether the class has a method called `name` with the descriptor `descriptor`.
    pub fn has_method(&self, name: &str, descriptor: &str) -> (r: bool)
        ensures
            r == has_method_in(self.method_map@, name@, descriptor@),
    {
        if self.method_map.contains_key(name) {
            match self.method_map.get(name) {
                Some(m) => {
                    if m.contains_key(descriptor) {
                        true
                    } else {
                        false
                    }
                },
                None => false,
            }
        } else {
            false
        }
    }
}

/// Bytes after a method do not change how it reads: where reading a method from `b` at
/// `pos` succeeds, reading from `b` followed by `more` at `pos` gives the same method and
/// length.
pub proof fn lemma_method_at_extend(b: Seq<u8>, more: Seq<u8>, pos: int, pool: Seq<Constant>)
    requires
        0 <= pos,
        method_at(b, pos, pool) is Done,
    ensures
        method_at(b + more, pos, pool) == method_at(b, pos, pool),
{
    lemma_reads_extend(b, more);
    assert(has_bytes(b, pos, 2));
    assert(has_bytes(b, pos + 2, 2));
    assert(has_bytes(b, pos + 4, 2));
    assert(has_bytes(b, pos + 6, 2));
    lemma_attributes_at_extend(b, more, pos + 8, pool, be16(b, pos + 6) as nat);
}

/// Bytes after a field do not change how it reads: where reading a field from `b` at
/// `pos` succeeds, reading from `b` followed by `more` at `pos` gives the same field and
/// length.
pub proof fn lemma_field_info_at_extend(b: Seq<u8>, more: Seq<u8>, pos: int, pool: Seq<Constant>)
    requires
        0 <= pos,
        field_info_at(b, pos, pool) is Done,
    ensures
        field_info_at(b + more, pos, pool) == field_info_at(b, pos, pool),
{
    lemma_reads_extend(b, more);
    assert(has_bytes(b, pos, 2));
    assert(has_bytes(b, pos + 2, 2));
    assert(has_bytes(b, pos + 4, 2));
    assert(has_bytes(b, pos + 6, 2));
    lemma_attributes_at_extend(b, more, pos + 8, pool, be16(b, pos + 6) as nat);
}

/// A failed read of a method stops at the end of the bytes where they ran out, and
/// otherwise past the start of the method and within the bytes: for a missing name, just
/// after its index.
pub proof fn lemma_method_at_stops(b: Seq<u8>, pos: int, pool: Seq<Constant>)
    ensures
        stops_within(method_at(b, pos, pool), b, pos),
{
    if has_bytes(b, pos + 6, 2) {
        lemma_attributes_at_stops(b, pos + 8, pool, be16(b, pos + 6) as nat);
    }
}

/// A failed read of a field stops at the end of the bytes where they ran out, and
/// otherwise past the start of the field and within the bytes: for a missing name, just
/// after its index.
pub proof fn lemma_field_info_at_stops(b: Seq<u8>, pos: int, pool: Seq<Constant>)
    ensures
        stops_within(field_info_at(b, pos, pool), b, pos),
{
    if has_bytes(b, pos + 6, 2) {
        lemma_attributes_at_stops(b, pos + 8, pool, be16(b, pos + 6) as nat);
    }
}

/// What `get` gives on a pool after `push`: where `after` is `before` with `c` pushed
/// (what `ConstantPool::push` makes of it), the entry at the old length is `c`, every
/// entry before it is unchanged, nothing lies past it, and a pushed `Utf8` entry resolves
/// to its text.
pub proof fn lemma_pool_push_get(before: ConstantPool, after: ConstantPool, c: Constant, i: int)
    requires
        after@ == before@.push(c),
    ensures
        after@.len() == before@.len() + 1,
        after@[before@.len() as int] == c,
        0 <= i < before@.len() ==> after@[i] == before@[i],
        c matches Constant::Utf8(s) ==> pool_utf8(after@, before@.len() as int) == Some(s@),
{
}

/// What `get` gives on a pool after `insert`: where `after` is `before` with `c` inserted
/// at `index` (what `ConstantPool::insert` makes of it), the entry at `index` is `c`, the
/// entries before it are unchanged, and those from it on move up by one.
pub proof fn lemma_pool_insert_get(
    before: ConstantPool,
    after: ConstantPool,
    index: int,
    c: Constant,
    i: int,
)
    requires
        0 <= index <= before@.len(),
        after@ == before@.insert(index, c),
    ensures
        after@.len() == before@.len() + 1,
        after@[index] == c,
        0 <= i < index ==> after@[i] == before@[i],
        index <= i < before@.len() ==> after@[i + 1] == before@[i],
{
}

/// True when `r`, what a member reference with the class entry `c`, the name-and-type
/// entry `nt` and the kind `kind` resolves to, is made of those entries: the name of the
/// class, then the text of the name entry and the text of the descriptor entry of the
/// name-and-type, in that order; and `None` only where one of them does not resolve.
pub open spec fn made_of_entries(
    pool: Seq<Constant>,
    c: u16,
    nt: u16,
    kind: RefInfoType,
    r: Option<RefInfoView>,
) -> bool {
    match r {
        Some(v) => {
            &&& v.info_type == kind
            &&& 0 <= c < pool.len()
            &&& pool[c as int] matches Constant::Class(name_index) && pool_utf8(
                pool,
                name_index as int,
            ) == Some(v.class_name)
            &&& 0 <= nt < pool.len()
            &&& pool[nt as int] matches Constant::NameAndType(n, d) && pool_utf8(pool, n as int)
                == Some(v.name) && pool_utf8(pool, d as int) == Some(v.descriptor)
            &&& pool_name_and_type(pool, nt as int) == Some((v.name, v.descriptor))
        },
        None => pool_class_name(pool, c as int) is None || pool_name_and_type(pool, nt as int)
            is None,
    }
}

/// What a member reference resolves to: a `FieldRef`, `MethodRef` or `InterfaceMethodRef`
/// entry gives the name of its class, then the name and the descriptor of its
/// name-and-type entry, in that order (the pair that `resolve_name_and_type` gives), with
/// the kind of the entry; any other entry gives nothing.
pub proof fn lemma_ref_info_parts(pool: Seq<Constant>, i: int)
    ensures
        0 <= i < pool.len() ==> match pool[i] {
            Constant::FieldRef(c, nt) => made_of_entries(
                pool,
                c,
                nt,
                RefInfoType::FieldRef,
                pool_ref_info(pool, i),
            ),
            Constant::MethodRef(c, nt) => made_of_entries(
                pool,
                c,
                nt,
                RefInfoType::MethodRef,
                pool_ref_info(pool, i),
            ),
            Constant::InterfaceMethodRef(c, nt) => made_of_entries(
                pool,
                c,
                nt,
                RefInfoType::InterfaceMethodRef,
                pool_ref_info(pool, i),
            ),
            _ => pool_ref_info(pool, i) is None,
        },
        !(0 <= i < pool.len()) ==> pool_ref_info(pool, i) is None,
{
}

/// True when the method `m`, read from `b` at `pos` with the pool `pool`, is laid out in
/// the bytes as a method is: its access flags are the two bytes at `pos`, high byte first,
/// all sixteen bits kept; the indices of its name and of its descriptor are the next two
/// pairs, and the name and the descriptor are the texts of the `Utf8` entries they index;
/// the attribute count is the pair after them; and the method takes at least those eight
/// bytes.
pub open spec fn method_laid_out(
    m: MethodView,
    k: nat,
    b: Seq<u8>,
    pos: int,
    pool: Seq<Constant>,
) -> bool {
    &&& pos + 8 <= b.len()
    &&& spelled_by(m.access_flags as int, b[pos], b[pos + 1])
    &&& spelled_by(m.name_index as int, b[pos + 2], b[pos + 3])
    &&& pool_utf8(pool, m.name_index as int) == Some(m.name)
    &&& spelled_by(m.descriptor_index as int, b[pos + 4], b[pos + 5])
    &&& pool_utf8(pool, m.descriptor_index as int) == Some(m.descriptor)
    &&& spelled_by(m.attributes_count as int, b[pos + 6], b[pos + 7])
    &&& 8 <= k
}

/// A method that is read is laid out in the bytes as `method_laid_out` says.
pub proof fn lemma_method_fields(b: Seq<u8>, pos: int, pool: Seq<Constant>)
    requires
        0 <= pos,
        method_at(b, pos, pool) is Done,
    ensures
        method_at(b, pos, pool) matches Parsed::Done(m, k) && method_laid_out(m, k, b, pos, pool),
{
    lemma_be16_spelled(b, pos);
    lemma_be16_spelled(b, pos + 2);
    lemma_be16_spelled(b, pos + 4);
    lemma_be16_spelled(b, pos + 6);
}

/// True when the field `f`, read from `b` at `pos` with the pool `pool`, is laid out in the
/// bytes as a field is: its access flags are the two bytes at `pos`, high byte first, all
/// sixteen bits kept; its name is the text of the `Utf8` entry that the next two bytes
/// index; its descriptor is what the text of the `Utf8` entry that the two bytes after
/// those index parses to; and it takes at least eight bytes.
pub open spec fn field_laid_out(
    f: FieldInfoView,
    k: nat,
    b: Seq<u8>,
    pos: int,
    pool: Seq<Constant>,
) -> bool {
    &&& pos + 8 <= b.len()
    &&& spelled_by(f.access_flags as int, b[pos], b[pos + 1])
    &&& pool_utf8(pool, b[pos + 2] * 0x100 + b[pos + 3]) == Some(f.name)
    &&& pool_utf8(pool, b[pos + 4] * 0x100 + b[pos + 5]) matches Some(d) && field_descriptor_of(
        encode_utf8(d),
    ) == Some(f.field_descriptor)
    &&& 8 <= k
}

/// A field that is read is laid out in the bytes as `field_laid_out` says.
pub proof fn lemma_field_fields(b: Seq<u8>, pos: int, pool: Seq<Constant>)
    requires
        0 <= pos,
        field_info_at(b, pos, pool) is Done,
    ensures
        field_info_at(b, pos, pool) matches Parsed::Done(f, k) && field_laid_out(
            f,
            k,
            b,
            pos,
            pool,
        ),
{
    lemma_be16_spelled(b, pos);
    lemma_be16_spelled(b, pos + 2);
    lemma_be16_spelled(b, pos + 4);
    lemma_be16_spelled(b, pos + 6);
}

/// What the pool lookups give, entry by entry: a `Utf8` entry gives its own text; a
/// `Class` entry gives the text of the `Utf8` entry its name index points at; a
/// `NameAndType` entry gives the text of its name entry first and that of its descriptor
/// entry second. Each gives nothing where an entry it needs is missing or of another kind.
pub proof fn lemma_pool_lookups(pool: Seq<Constant>, i: int)
    ensures
        match pool_utf8(pool, i) {
            Some(t) => 0 <= i < pool.len() && (pool[i] matches Constant::Utf8(s) && s@ == t),
            None => !(0 <= i < pool.len() && pool[i] is Utf8),
        },
        match pool_class_name(pool, i) {
            Some(t) => 0 <= i < pool.len() && (pool[i] matches Constant::Class(n) && 0 <= n
                < pool.len() && (pool[n as int] matches Constant::Utf8(s) && s@ == t)),
            None => !(0 <= i < pool.len() && (pool[i] matches Constant::Class(n) && 0 <= n
                < pool.len() && pool[n as int] is Utf8)),
        },
        match pool_name_and_type(pool, i) {
            Some((name, descriptor)) => 0 <= i < pool.len() && (pool[i] matches Constant::NameAndType(
                n,
                d,
            ) && 0 <= n < pool.len() && 0 <= d < pool.len() && (pool[n as int] matches Constant::Utf8(
                s,
            ) && s@ == name) && (pool[d as int] matches Constant::Utf8(s2) && s2@ == descriptor)),
            None => !(0 <= i < pool.len() && (pool[i] matches Constant::NameAndType(n, d) && 0
                <= n < pool.len() && 0 <= d < pool.len() && pool[n as int] is Utf8
                && pool[d as int] is Utf8)),
        },
{
}

} // verus!
