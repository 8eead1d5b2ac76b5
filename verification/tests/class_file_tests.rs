use jvm::attribute::{Attribute, AttributeItem};
use jvm::class::{AccessFlags, ConstantPool, FieldInfo, Method, ParseError, RefInfoType};
use jvm::constant::{Constant, PoolTag};
use jvm::descriptor::{BaseType, FieldDescriptor};
use jvm::mutf8::decode_modified_utf8;

fn utf8_entry(s: &str) -> Vec<u8> {
    let mut v = vec![1u8];
    v.extend_from_slice(&(s.len() as u16).to_be_bytes());
    v.extend_from_slice(s.as_bytes());
    v
}

fn pool_of(texts: &[&str]) -> ConstantPool {
    let mut pool = ConstantPool::new();
    for t in texts {
        pool.push(Constant::Utf8(t.to_string()));
    }
    pool
}

#[test]
fn constant_utf8() {
    let pool = ConstantPool::new();
    let bytes = utf8_entry("abc");
    match Constant::from_bytes(&bytes, 0, &pool) {
        Ok((Constant::Utf8(s), end)) => {
            assert_eq!(s, "abc");
            assert_eq!(end, 6);
        }
        other => panic!("unexpected {:?}", other),
    }
}

#[test]
fn constant_utf8_invalid_text_is_string_error() {
    let pool = ConstantPool::new();
    let bytes = vec![1u8, 0, 2, 0xc3, 0x28];
    assert!(matches!(Constant::from_bytes(&bytes, 0, &pool), Err((ParseError::StringError, 5))));
}

#[test]
fn constant_utf8_truncated_is_io_error() {
    let pool = ConstantPool::new();
    let bytes = vec![1u8, 0, 5, b'a', b'b'];
    assert!(matches!(Constant::from_bytes(&bytes, 0, &pool), Err((ParseError::IOError, 5))));
    assert!(matches!(Constant::from_bytes(&[], 0, &pool), Err((ParseError::IOError, 0))));
    assert!(matches!(Constant::from_bytes(&[7u8, 0], 0, &pool), Err((ParseError::IOError, 2))));
}

#[test]
fn constant_numbers() {
    let pool = ConstantPool::new();
    let b = [3u8, 0xff, 0xff, 0xff, 0xfe];
    assert!(matches!(Constant::from_bytes(&b, 0, &pool), Ok((Constant::Integer(-2), 5))));
    let b = [4u8, 0x3f, 0x80, 0, 0];
    match Constant::from_bytes(&b, 0, &pool) {
        Ok((Constant::Float(bits), 5)) => assert_eq!(f32::from_bits(bits), 1.0f32),
        other => panic!("unexpected {:?}", other),
    }
    let b = [5u8, 0x80, 0, 0, 0, 0, 0, 0, 1];
    assert!(matches!(Constant::from_bytes(&b, 0, &pool), Ok((Constant::Long(v), 9)) if v == i64::MIN + 1));
    let b = [6u8, 0x40, 0, 0, 0, 0, 0, 0, 0];
    match Constant::from_bytes(&b, 0, &pool) {
        Ok((Constant::Double(bits), 9)) => assert_eq!(f64::from_bits(bits), 2.0f64),
        other => panic!("unexpected {:?}", other),
    }
}

#[test]
fn constant_references() {
    let pool = ConstantPool::new();
    assert!(matches!(Constant::from_bytes(&[7u8, 1, 2], 0, &pool), Ok((Constant::Class(0x102), 3))));
    assert!(matches!(Constant::from_bytes(&[8u8, 0, 9], 0, &pool), Ok((Constant::String(9), 3))));
    assert!(matches!(Constant::from_bytes(&[9u8, 0, 1, 0, 2], 0, &pool), Ok((Constant::FieldRef(1, 2), 5))));
    assert!(matches!(Constant::from_bytes(&[10u8, 0, 3, 0, 4], 0, &pool), Ok((Constant::MethodRef(3, 4), 5))));
    assert!(matches!(
        Constant::from_bytes(&[11u8, 0, 5, 0, 6], 0, &pool),
        Ok((Constant::InterfaceMethodRef(5, 6), 5))
    ));
    assert!(matches!(Constant::from_bytes(&[12u8, 0, 7, 0, 8], 0, &pool), Ok((Constant::NameAndType(7, 8), 5))));
    assert!(matches!(Constant::from_bytes(&[15u8, 6, 0, 9], 0, &pool), Ok((Constant::MethodHandle(6, 9), 4))));
    assert!(matches!(Constant::from_bytes(&[16u8, 0, 10], 0, &pool), Ok((Constant::MethodType(10), 3))));
    assert!(matches!(Constant::from_bytes(&[18u8, 0, 11, 0, 12], 0, &pool), Ok((Constant::InvokeDynamic(11, 12), 5))));
    assert!(matches!(Constant::from_bytes(&[9u8, 0, 1, 0], 0, &pool), Err((ParseError::IOError, 4))));
}

#[test]
fn constant_at_offset_and_with_trailing_bytes() {
    let pool = ConstantPool::new();
    let mut bytes = vec![0xaa, 0xbb];
    bytes.extend(utf8_entry("hi"));
    let end_alone = match Constant::from_bytes(&bytes, 2, &pool) {
        Ok((Constant::Utf8(s), end)) => {
            assert_eq!(s, "hi");
            end
        }
        other => panic!("unexpected {:?}", other),
    };
    assert_eq!(end_alone, 7);
    bytes.extend_from_slice(&[1, 2, 3]);
    match Constant::from_bytes(&bytes, 2, &pool) {
        Ok((Constant::Utf8(s), end)) => {
            assert_eq!(s, "hi");
            assert_eq!(end, end_alone);
        }
        other => panic!("unexpected {:?}", other),
    }
}

#[test]
fn pool_tags() {
    assert_eq!(PoolTag::from(1).as_int(), 1);
    assert_eq!(PoolTag::from(18).as_int(), 18);
    assert!(matches!(PoolTag::from(12), PoolTag::NameAndType));
    assert!(PoolTag::from(7) == PoolTag::Class);
    assert!(PoolTag::from(7) != PoolTag::String);
    for t in [1u8, 3, 4, 5, 6, 7, 8, 9, 10, 11, 12, 15, 16, 18] {
        assert_eq!(PoolTag::from(t).as_int(), t);
    }
}

#[test]
fn pool_push_insert_get() {
    let mut pool = ConstantPool::new();
    assert!(pool.get(0).is_none());
    pool.push(Constant::Integer(1));
    pool.push(Constant::Integer(3));
    pool.insert(1, Constant::Integer(2));
    assert_eq!(pool.get_vec().len(), 3);
    assert!(matches!(pool.get(0), Some(Constant::Integer(1))));
    assert!(matches!(pool.get(1), Some(Constant::Integer(2))));
    assert!(matches!(pool.get(2), Some(Constant::Integer(3))));
    assert!(pool.get(3).is_none());
}

fn sample_pool() -> ConstantPool {
    let mut pool = ConstantPool::new();
    pool.push(Constant::Integer(0)); // 0
    pool.push(Constant::Utf8("java/lang/Object".to_string())); // 1
    pool.push(Constant::Class(1)); // 2
    pool.push(Constant::Utf8("<init>".to_string())); // 3
    pool.push(Constant::Utf8("()V".to_string())); // 4
    pool.push(Constant::NameAndType(3, 4)); // 5
    pool.push(Constant::MethodRef(2, 5)); // 6
    pool.push(Constant::FieldRef(2, 5)); // 7
    pool.push(Constant::InterfaceMethodRef(2, 5)); // 8
    pool.push(Constant::MethodRef(0, 5)); // 9: class index is not a Class
    pool.push(Constant::NameAndType(3, 2)); // 10: descriptor is not Utf8
    pool
}

#[test]
fn pool_resolve_utf8_and_class() {
    let pool = sample_pool();
    assert_eq!(pool.resolve_utf8(1), Some("java/lang/Object"));
    assert_eq!(pool.resolve_utf8(2), None);
    assert_eq!(pool.resolve_utf8(99), None);
    assert_eq!(pool.resolve_class_info(2), Some("java/lang/Object"));
    assert_eq!(pool.resolve_class_info(1), None);
    assert_eq!(pool.resolve_class_info(99), None);
}

#[test]
fn pool_resolve_name_and_type() {
    let pool = sample_pool();
    assert_eq!(pool.resolve_name_and_type(5), Some(("<init>", "()V")));
    assert_eq!(pool.resolve_name_and_type(10), None);
    assert_eq!(pool.resolve_name_and_type(6), None);
}

#[test]
fn pool_resolve_ref_info() {
    let pool = sample_pool();
    let info = pool.resolve_ref_info(6).unwrap();
    assert_eq!(info.class_name, "java/lang/Object");
    assert_eq!(info.name, "<init>");
    assert_eq!(info.descriptor, "()V");
    assert!(info.info_type == RefInfoType::MethodRef);
    assert!(pool.resolve_ref_info(7).unwrap().info_type == RefInfoType::FieldRef);
    assert!(pool.resolve_ref_info(8).unwrap().info_type == RefInfoType::InterfaceMethodRef);
    assert!(pool.resolve_ref_info(9).is_none());
    assert!(pool.resolve_ref_info(1).is_none());
    assert!(pool.resolve_ref_info(100).is_none());
}

#[test]
fn access_flags() {
    assert!(AccessFlags::is_native(0x0101));
    assert!(!AccessFlags::is_native(0x0001));
    assert!(AccessFlags::is_protected(0x0004));
    assert!(!AccessFlags::is_protected(0x0003));
    assert_eq!(AccessFlags::NATIVE.mask(), 0x100);
    assert_eq!(AccessFlags::SYNTHETIC.mask(), 0x1000);
    assert_eq!(AccessFlags::PUBLIC.mask(), 0x1);
}

fn attribute_bytes(name_index: u16, body: &[u8]) -> Vec<u8> {
    let mut v = name_index.to_be_bytes().to_vec();
    v.extend_from_slice(&(body.len() as u32).to_be_bytes());
    v.extend_from_slice(body);
    v
}

#[test]
fn attribute_constant_value() {
    let pool = pool_of(&["ConstantValue"]);
    let bytes = attribute_bytes(0, &[0, 42]);
    match Attribute::from_bytes(&bytes, 0, &pool) {
        Ok((a, end)) => {
            assert_eq!(a.attribute_name, "ConstantValue");
            assert!(matches!(a.info, AttributeItem::ConstantValue(ref cv) if cv.constant_value_index == 42));
            assert_eq!(end, 8);
        }
        Err(e) => panic!("unexpected {:?}", e),
    }
}

#[test]
fn attribute_code_with_nested_attribute() {
    let pool = pool_of(&["Code", "LineNumberTable"]);
    let nested = attribute_bytes(1, &[0, 1, 0, 0, 0, 7]);
    let mut body = vec![0, 2, 0, 3]; // max_stack, max_locals
    body.extend_from_slice(&3u32.to_be_bytes());
    body.extend_from_slice(&[0x2a, 0xb7, 0xb1]); // code
    body.extend_from_slice(&1u16.to_be_bytes());
    body.extend_from_slice(&[0, 1, 0, 2, 0, 3, 0, 4]); // one exception entry
    body.extend_from_slice(&1u16.to_be_bytes());
    body.extend(nested);
    let bytes = attribute_bytes(0, &body);
    let (a, end) = Attribute::from_bytes(&bytes, 0, &pool).unwrap();
    assert_eq!(end, bytes.len());
    assert_eq!(a.attribute_name, "Code");
    match a.info {
        AttributeItem::Code(code) => {
            assert_eq!(code.max_stack, 2);
            assert_eq!(code.max_locals, 3);
            assert_eq!(code.code_length, 3);
            assert_eq!(code.code, vec![0x2a, 0xb7, 0xb1]);
            assert_eq!(code.exception_table_length, 1);
            assert_eq!(code.exception_table[0].start_pc, 1);
            assert_eq!(code.exception_table[0].end_pc, 2);
            assert_eq!(code.exception_table[0].handler_pc, 3);
            assert_eq!(code.exception_table[0].catch_type, 4);
            assert_eq!(code.attributes_count, 1);
            assert_eq!(code.attributes[0].attribute_name, "LineNumberTable");
            assert!(matches!(code.attributes[0].info, AttributeItem::Unimplemented));
        }
        other => panic!("unexpected {:?}", other),
    }
}

#[test]
fn attribute_unknown_is_skipped_by_its_length() {
    let pool = pool_of(&["SourceFile"]);
    let mut bytes = attribute_bytes(0, &[0, 5]);
    bytes.extend_from_slice(&[9, 9]);
    let (a, end) = Attribute::from_bytes(&bytes, 0, &pool).unwrap();
    assert_eq!(a.attribute_name, "SourceFile");
    assert!(matches!(a.info, AttributeItem::Unimplemented));
    assert_eq!(end, 8);
}

#[test]
fn attribute_unknown_may_skip_past_the_end() {
    let pool = pool_of(&["Other"]);
    let mut bytes = 0u16.to_be_bytes().to_vec();
    bytes.extend_from_slice(&100u32.to_be_bytes());
    let (_a, end) = Attribute::from_bytes(&bytes, 0, &pool).unwrap();
    assert_eq!(end, 106);
}

#[test]
fn attribute_errors() {
    let pool = pool_of(&["Code"]);
    assert!(matches!(Attribute::from_bytes(&[0, 0, 0], 0, &pool), Err((ParseError::IOError, 3))));
    let bytes = attribute_bytes(5, &[]);
    assert!(matches!(Attribute::from_bytes(&bytes, 0, &pool), Err((ParseError::NoneError, 6))));
    let bytes = attribute_bytes(0, &[0, 1]);
    assert!(matches!(Attribute::from_bytes(&bytes, 0, &pool), Err((ParseError::IOError, 8))));
}

fn member_bytes(flags: u16, name: u16, desc: u16, attrs: &[Vec<u8>]) -> Vec<u8> {
    let mut v = Vec::new();
    v.extend_from_slice(&flags.to_be_bytes());
    v.extend_from_slice(&name.to_be_bytes());
    v.extend_from_slice(&desc.to_be_bytes());
    v.extend_from_slice(&(attrs.len() as u16).to_be_bytes());
    for a in attrs {
        v.extend_from_slice(a);
    }
    v
}

#[test]
fn method_from_bytes() {
    let pool = pool_of(&["main", "([Ljava/lang/String;)V", "Exceptions", "Deprecated"]);
    let bytes = member_bytes(
        0x0009,
        0,
        1,
        &[attribute_bytes(2, &[0, 0]), attribute_bytes(3, &[])],
    );
    let (m, end) = Method::from_bytes(&bytes, 0, &pool).unwrap();
    assert_eq!(end, bytes.len());
    assert_eq!(m.access_flags, 9);
    assert_eq!(m.name, "main");
    assert_eq!(m.name_index, 0);
    assert_eq!(m.descriptor, "([Ljava/lang/String;)V");
    assert_eq!(m.descriptor_index, 1);
    assert_eq!(m.attributes_count, 2);
    assert!(m.attribute_map.contains_key("Exceptions"));
    assert!(m.attribute_map.contains_key("Deprecated"));
    assert!(!m.attribute_map.contains_key("Code"));
}

#[test]
fn method_attribute_map_keeps_the_last_of_a_name() {
    let pool = pool_of(&["f", "()V", "ConstantValue"]);
    let bytes = member_bytes(0, 0, 1, &[attribute_bytes(2, &[0, 1]), attribute_bytes(2, &[0, 2])]);
    let (m, _) = Method::from_bytes(&bytes, 0, &pool).unwrap();
    match m.attribute_map.get("ConstantValue") {
        Some(a) => assert!(matches!(a.info, AttributeItem::ConstantValue(ref cv) if cv.constant_value_index == 2)),
        None => panic!("missing attribute"),
    }
}

#[test]
fn method_errors() {
    let pool = pool_of(&["f", "()V"]);
    assert!(matches!(Method::from_bytes(&[0, 1, 0], 0, &pool), Err((ParseError::IOError, 3))));
    let bytes = member_bytes(0, 7, 1, &[]);
    assert!(matches!(Method::from_bytes(&bytes, 0, &pool), Err((ParseError::NoneError, 4))));
    let bytes = member_bytes(0, 0, 9, &[]);
    assert!(matches!(Method::from_bytes(&bytes, 0, &pool), Err((ParseError::NoneError, 6))));
}

#[test]
fn field_info_from_bytes() {
    let pool = pool_of(&["count", "I", "ConstantValue"]);
    let mut bytes = member_bytes(0x0018, 0, 1, &[attribute_bytes(2, &[0, 3])]);
    let len = bytes.len();
    bytes.extend_from_slice(&[0xde, 0xad]);
    let (f, end) = FieldInfo::from_bytes(&bytes, 0, &pool).unwrap();
    assert_eq!(end, len);
    assert_eq!(f.access_flags, 0x18);
    assert_eq!(f.name, "count");
    assert!(matches!(f.field_descriptor, FieldDescriptor::BaseType(BaseType::Int)));
    assert!(f.attribute_map.contains_key("ConstantValue"));
}

#[test]
fn field_info_errors() {
    let pool = pool_of(&["x", "J"]);
    assert!(matches!(FieldInfo::from_bytes(&[0, 0, 0, 0, 0], 0, &pool), Err((ParseError::IOError, 5))));
    let bytes = member_bytes(0, 3, 1, &[]);
    assert!(matches!(FieldInfo::from_bytes(&bytes, 0, &pool), Err((ParseError::NoneError, 4))));
    let bytes = member_bytes(0, 0, 4, &[]);
    assert!(matches!(FieldInfo::from_bytes(&bytes, 0, &pool), Err((ParseError::NoneError, 6))));
}

#[test]
fn constant_utf8_null_character_is_two_bytes() {
    let pool = ConstantPool::new();
    let bytes = vec![1u8, 0, 2, 0xc0, 0x80];
    match Constant::from_bytes(&bytes, 0, &pool) {
        Ok((Constant::Utf8(s), end)) => {
            assert_eq!(s, "\u{0}");
            assert_eq!(end, 5);
        }
        other => panic!("unexpected {:?}", other),
    }
}

#[test]
fn constant_utf8_surrogate_pair_is_one_character() {
    let pool = ConstantPool::new();
    let bytes = vec![1u8, 0, 6, 0xed, 0xa0, 0xbd, 0xed, 0xb8, 0x80];
    match Constant::from_bytes(&bytes, 0, &pool) {
        Ok((Constant::Utf8(s), end)) => {
            assert_eq!(s, "\u{1F600}");
            assert_eq!(end, 9);
        }
        other => panic!("unexpected {:?}", other),
    }
}

#[test]
fn constant_utf8_lone_surrogate_is_string_error() {
    let pool = ConstantPool::new();
    let bytes = vec![1u8, 0, 3, 0xed, 0xa0, 0xbd, 0x41];
    assert!(matches!(Constant::from_bytes(&bytes, 0, &pool), Err((ParseError::StringError, 6))));
    let bytes = vec![1u8, 0, 3, 0xed, 0xb8, 0x80];
    assert!(matches!(Constant::from_bytes(&bytes, 0, &pool), Err((ParseError::StringError, 6))));
}

#[test]
fn constant_utf8_forbidden_bytes_are_string_error() {
    let pool = ConstantPool::new();
    assert!(matches!(Constant::from_bytes(&[1u8, 0, 1, 0x00], 0, &pool), Err((ParseError::StringError, 4))));
    assert!(matches!(
        Constant::from_bytes(&[1u8, 0, 4, 0xf0, 0x9f, 0x98, 0x80], 0, &pool),
        Err((ParseError::StringError, 7))
    ));
    assert!(matches!(Constant::from_bytes(&[1u8, 0, 1, 0x80], 0, &pool), Err((ParseError::StringError, 4))));
    assert!(matches!(Constant::from_bytes(&[1u8, 0, 1, 0xc2], 0, &pool), Err((ParseError::StringError, 4))));
}

#[test]
fn decode_modified_utf8_examples() {
    assert_eq!(decode_modified_utf8(b"abc", 0, 3), Some("abc".to_string()));
    assert_eq!(decode_modified_utf8(b"abc", 1, 2), Some("b".to_string()));
    assert_eq!(decode_modified_utf8(&[0xc3, 0xa9], 0, 2), Some("\u{e9}".to_string()));
    assert_eq!(decode_modified_utf8(&[0xe2, 0x82, 0xac], 0, 3), Some("\u{20ac}".to_string()));
    assert_eq!(decode_modified_utf8(&[0xc0, 0x80, 0x41], 0, 3), Some("\u{0}A".to_string()));
    assert_eq!(decode_modified_utf8(&[0xe2, 0x82, 0xac], 0, 2), None);
    assert_eq!(decode_modified_utf8(&[], 0, 0), Some(String::new()));
}

#[test]
fn attribute_missing_name_stops_after_six_bytes() {
    let pool = ConstantPool::new();
    let bytes = vec![0u8, 0, 0, 0, 0, 0];
    assert!(matches!(Attribute::from_bytes(&bytes, 0, &pool), Err((ParseError::NoneError, 6))));
    let mut shifted = vec![9u8, 9];
    shifted.extend_from_slice(&bytes);
    assert!(matches!(Attribute::from_bytes(&shifted, 2, &pool), Err((ParseError::NoneError, 8))));
}

#[test]
fn method_missing_name_stops_after_its_index() {
    let pool = ConstantPool::new();
    let bytes = vec![0u8, 1, 0, 0, 0, 0, 0, 0];
    assert!(matches!(Method::from_bytes(&bytes, 0, &pool), Err((ParseError::NoneError, 4))));
}

#[test]
fn nested_attribute_failure_reports_where_it_stopped() {
    let pool = pool_of(&["Code"]);
    let mut body = vec![0, 1, 0, 1, 0, 0, 0, 0, 0, 0, 0, 1];
    body.extend(attribute_bytes(3, &[]));
    let bytes = attribute_bytes(0, &body);
    assert!(matches!(Attribute::from_bytes(&bytes, 0, &pool), Err((ParseError::NoneError, 24))));
}

#[test]
fn constant_utf8_overlong_forms_are_string_error() {
    let pool = ConstantPool::new();
    assert!(matches!(Constant::from_bytes(&[1u8, 0, 2, 0xc1, 0x81], 0, &pool), Err((ParseError::StringError, 5))));
    assert!(matches!(Constant::from_bytes(&[1u8, 0, 2, 0xc0, 0x81], 0, &pool), Err((ParseError::StringError, 5))));
    assert!(matches!(
        Constant::from_bytes(&[1u8, 0, 3, 0xe0, 0x80, 0x80], 0, &pool),
        Err((ParseError::StringError, 6))
    ));
    assert!(matches!(
        Constant::from_bytes(&[1u8, 0, 3, 0xe0, 0x9f, 0xbf], 0, &pool),
        Err((ParseError::StringError, 6))
    ));
    assert_eq!(decode_modified_utf8(&[0xc2, 0x80], 0, 2), Some("\u{80}".to_string()));
    assert_eq!(decode_modified_utf8(&[0xe0, 0xa0, 0x80], 0, 3), Some("\u{800}".to_string()));
    assert_eq!(decode_modified_utf8(&[0xc0, 0x80], 0, 2), Some("\u{0}".to_string()));
}

#[test]
fn constant_read_ignores_the_pool() {
    let empty = ConstantPool::new();
    let full = pool_of(&["a", "b", "c"]);
    for bytes in [vec![7u8, 0, 2], vec![1u8, 0, 1, b'x'], vec![9u8, 0], vec![2u8, 0]] {
        let a = format!("{:?}", Constant::read(&bytes, 0, &empty));
        let b = format!("{:?}", Constant::read(&bytes, 0, &full));
        assert_eq!(a, b);
    }
}
