use jvm::attribute::{Attribute, AttributeItem};
use jvm::class::{ConstantPool, FieldInfo, Method, ParseError};
use jvm::constant::Constant;
use jvm::descriptor::{BaseType, FieldDescriptor, MethodDescriptor};

fn pool_with(entries: Vec<Constant>) -> ConstantPool {
    let mut pool = ConstantPool::new();
    for c in entries {
        pool.push(c);
    }
    pool
}

fn attribute_bytes(name_index: u16, body: &[u8]) -> Vec<u8> {
    let mut v = name_index.to_be_bytes().to_vec();
    v.extend_from_slice(&(body.len() as u32).to_be_bytes());
    v.extend_from_slice(body);
    v
}

#[test]
fn field_descriptor_try_parse_refuses() {
    assert!(FieldDescriptor::try_parse("").is_none());
    assert!(FieldDescriptor::try_parse("Q").is_none());
    assert!(FieldDescriptor::try_parse("L").is_none());
    assert!(FieldDescriptor::try_parse("[").is_none());
    assert!(FieldDescriptor::try_parse("[[").is_none());
    assert!(FieldDescriptor::try_parse("[Q").is_none());
    assert!(FieldDescriptor::try_parse("[L").is_none());
    assert!(FieldDescriptor::try_parse("é").is_none());
    assert!(FieldDescriptor::try_parse("Lx/é").is_none());
    assert!(FieldDescriptor::try_parse("[é").is_none());
}

#[test]
fn field_descriptor_try_parse_agrees_with_parse() {
    for d in ["I", "Ljava/lang/String;", "[[J", "[Lx;"] {
        let a = format!("{:?}", FieldDescriptor::try_parse(d).unwrap());
        let b = format!("{:?}", FieldDescriptor::parse(d).unwrap());
        assert_eq!(a, b);
    }
}

#[test]
fn base_letter_descriptor_matches_base_type_get() {
    for letter in ["B", "C", "D", "F", "I", "J", "S", "Z"] {
        let from_get = format!("{:?}", BaseType::get(letter).unwrap());
        match FieldDescriptor::parse(letter).unwrap() {
            FieldDescriptor::BaseType(t) => assert_eq!(format!("{:?}", t), from_get),
            other => panic!("unexpected {:?}", other),
        }
    }
}

#[test]
fn method_descriptor_try_parse_refuses() {
    assert!(MethodDescriptor::try_parse(")V").is_none());
    assert!(MethodDescriptor::try_parse("(Q)V").is_none());
    assert!(MethodDescriptor::try_parse("(I)").is_none());
    assert!(MethodDescriptor::try_parse("(I)IV").is_none());
    assert!(MethodDescriptor::try_parse("I)V").is_none());
    assert!(MethodDescriptor::try_parse("(Ljava/lang/String)V").is_none());
    assert!(MethodDescriptor::try_parse("([)V").is_none());
    assert!(MethodDescriptor::try_parse("(I)Vx").is_none());
    assert!(matches!(
        MethodDescriptor::try_parse("(I"),
        Some(Err(ParseError::MalformedDescriptor))
    ));
    assert!(matches!(MethodDescriptor::try_parse("(I)V"), Some(Ok(_))));
}

#[test]
fn constant_read_refuses_unknown_tag() {
    let pool = ConstantPool::new();
    assert!(matches!(Constant::read(&[2u8, 0, 0], 0, &pool), None));
    assert!(matches!(Constant::read(&[0u8], 0, &pool), None));
    assert!(matches!(Constant::read(&[], 0, &pool), Some(Err((ParseError::IOError, 0)))));
    assert!(matches!(Constant::read(&[7u8, 0, 1], 0, &pool), Some(Ok((Constant::Class(1), 3)))));
}

#[test]
fn attribute_read_refuses_name_that_is_not_utf8() {
    let pool = pool_with(vec![Constant::Integer(3)]);
    let bytes = attribute_bytes(0, &[]);
    assert!(matches!(Attribute::read(&bytes, 0, &pool), None));
}

#[test]
fn attribute_read_refuses_nested_name_that_is_not_utf8() {
    let pool = pool_with(vec![Constant::Utf8("Code".to_string()), Constant::Integer(3)]);
    let mut body = vec![0, 1, 0, 1, 0, 0, 0, 0, 0, 0, 0, 1];
    body.extend(attribute_bytes(1, &[]));
    let bytes = attribute_bytes(0, &body);
    assert!(matches!(Attribute::read(&bytes, 0, &pool), None));
}

#[test]
fn attribute_read_with_trailing_bytes_is_unchanged() {
    let pool = pool_with(vec![Constant::Utf8("ConstantValue".to_string())]);
    let mut bytes = attribute_bytes(0, &[0, 7]);
    let (a, end) = Attribute::read(&bytes, 0, &pool).unwrap().unwrap();
    bytes.extend_from_slice(&[1, 2, 3, 4]);
    let (b, end2) = Attribute::read(&bytes, 0, &pool).unwrap().unwrap();
    assert_eq!(end, end2);
    assert_eq!(a.attribute_name, b.attribute_name);
    assert!(matches!(b.info, AttributeItem::ConstantValue(ref cv) if cv.constant_value_index == 7));
}

#[test]
fn method_read_refuses_name_that_is_not_utf8() {
    let pool = pool_with(vec![Constant::Integer(1), Constant::Utf8("()V".to_string())]);
    let bytes = [0u8, 0, 0, 0, 0, 1, 0, 0];
    assert!(matches!(Method::read(&bytes, 0, &pool), None));
    let bytes = [0u8, 0, 0, 1, 0, 0, 0, 0];
    assert!(matches!(Method::read(&bytes, 0, &pool), None));
}

#[test]
fn field_read_refuses_bad_descriptor() {
    let pool = pool_with(vec![Constant::Utf8("x".to_string()), Constant::Utf8("Q".to_string())]);
    let bytes = [0u8, 0, 0, 0, 0, 1, 0, 0];
    assert!(matches!(FieldInfo::read(&bytes, 0, &pool), None));
    let pool = pool_with(vec![Constant::Utf8("x".to_string()), Constant::Utf8("[J".to_string())]);
    let (f, end) = FieldInfo::read(&bytes, 0, &pool).unwrap().unwrap();
    assert_eq!(end, 8);
    assert_eq!(f.name, "x");
    assert!(matches!(f.field_descriptor, FieldDescriptor::ArrayType(_)));
}

#[test]
fn method_read_failures_are_reported() {
    let pool = pool_with(vec![Constant::Utf8("m".to_string())]);
    assert!(matches!(Method::read(&[0u8], 0, &pool), Some(Err((ParseError::IOError, 1)))));
    let bytes = [0u8, 0, 0, 5, 0, 0, 0, 0];
    assert!(matches!(Method::read(&bytes, 0, &pool), Some(Err((ParseError::NoneError, 4)))));
}
