use jvm::class::ParseError;
use jvm::descriptor::{BaseType, FieldDescriptor, MethodDescriptor, MethodReturnType};
use jvm::operand::OperandType;

#[test]
fn base_type_get_each_letter() {
    assert!(matches!(BaseType::get("B"), Ok(BaseType::Byte)));
    assert!(matches!(BaseType::get("C"), Ok(BaseType::Char)));
    assert!(matches!(BaseType::get("D"), Ok(BaseType::Double)));
    assert!(matches!(BaseType::get("F"), Ok(BaseType::Float)));
    assert!(matches!(BaseType::get("I"), Ok(BaseType::Int)));
    assert!(matches!(BaseType::get("J"), Ok(BaseType::Long)));
    assert!(matches!(BaseType::get("S"), Ok(BaseType::Short)));
    assert!(matches!(BaseType::get("Z"), Ok(BaseType::Bool)));
}

#[test]
fn base_type_get_rejects_other_strings() {
    assert!(matches!(BaseType::get("X"), Err(ParseError::InvalidBaseType)));
    assert!(matches!(BaseType::get(""), Err(ParseError::InvalidBaseType)));
    assert!(matches!(BaseType::get("II"), Err(ParseError::InvalidBaseType)));
    assert!(matches!(BaseType::get("L"), Err(ParseError::InvalidBaseType)));
}

#[test]
fn base_type_sizes() {
    assert_eq!(BaseType::size_of(&BaseType::Byte, 8), 1);
    assert_eq!(BaseType::size_of(&BaseType::Char, 8), 2);
    assert_eq!(BaseType::size_of(&BaseType::Double, 8), 8);
    assert_eq!(BaseType::size_of(&BaseType::Float, 8), 4);
    assert_eq!(BaseType::size_of(&BaseType::Int, 8), 4);
    assert_eq!(BaseType::size_of(&BaseType::Long, 8), 8);
    assert_eq!(BaseType::size_of(&BaseType::Reference, 8), 8);
    assert_eq!(BaseType::size_of(&BaseType::Reference, 4), 4);
    assert_eq!(BaseType::size_of(&BaseType::Bool, 8), 1);
    assert_eq!(BaseType::size_of(&BaseType::Short, 8), 2);
}

#[test]
fn field_descriptor_base_type() {
    assert!(matches!(FieldDescriptor::parse("I"), Ok(FieldDescriptor::BaseType(BaseType::Int))));
    assert!(matches!(FieldDescriptor::parse("Z"), Ok(FieldDescriptor::BaseType(BaseType::Bool))));
    // Only the first letter is read.
    assert!(matches!(FieldDescriptor::parse("JX"), Ok(FieldDescriptor::BaseType(BaseType::Long))));
}

#[test]
fn field_descriptor_object_type() {
    match FieldDescriptor::parse("Ljava/lang/String;") {
        Ok(FieldDescriptor::ObjectType(name)) => assert_eq!(name, "java/lang/String"),
        other => panic!("unexpected {:?}", other),
    }
    match FieldDescriptor::parse("Lpkg/Bär;") {
        Ok(FieldDescriptor::ObjectType(name)) => assert_eq!(name, "pkg/Bär"),
        other => panic!("unexpected {:?}", other),
    }
    match FieldDescriptor::parse("L;") {
        Ok(FieldDescriptor::ObjectType(name)) => assert_eq!(name, ""),
        other => panic!("unexpected {:?}", other),
    }
}

#[test]
fn field_descriptor_array_types() {
    match FieldDescriptor::parse("[[D") {
        Ok(FieldDescriptor::ArrayType(a)) => {
            assert_eq!(a.dimensions, 2);
            assert!(matches!(*a.field_descriptor, FieldDescriptor::BaseType(BaseType::Double)));
        }
        other => panic!("unexpected {:?}", other),
    }
    match FieldDescriptor::parse("[Ljava/lang/Object;") {
        Ok(FieldDescriptor::ArrayType(a)) => {
            assert_eq!(a.dimensions, 1);
            match *a.field_descriptor {
                FieldDescriptor::ObjectType(ref name) => assert_eq!(name, "java/lang/Object"),
                ref other => panic!("unexpected {:?}", other),
            }
        }
        other => panic!("unexpected {:?}", other),
    }
}

#[test]
fn field_descriptor_array_dimensions_at_most_255() {
    let desc = format!("{}I", "[".repeat(255));
    match FieldDescriptor::parse(&desc) {
        Ok(FieldDescriptor::ArrayType(a)) => assert_eq!(a.dimensions, 255),
        other => panic!("unexpected {:?}", other),
    }
    assert!(FieldDescriptor::try_parse(&format!("{}I", "[".repeat(256))).is_none());
    assert!(FieldDescriptor::try_parse(&format!("{}I", "[".repeat(257))).is_none());
}

#[test]
fn matches_operand_by_kind() {
    let int = FieldDescriptor::parse("I").unwrap();
    assert!(int.matches_operand(OperandType::Int));
    assert!(!int.matches_operand(OperandType::Long));
    let byte = FieldDescriptor::parse("B").unwrap();
    assert!(byte.matches_operand(OperandType::Int));
    let short = FieldDescriptor::parse("S").unwrap();
    assert!(short.matches_operand(OperandType::Int));
    let boolean = FieldDescriptor::parse("Z").unwrap();
    assert!(boolean.matches_operand(OperandType::Int));
    let ch = FieldDescriptor::parse("C").unwrap();
    assert!(ch.matches_operand(OperandType::Char));
    assert!(!ch.matches_operand(OperandType::Int));
    let d = FieldDescriptor::parse("D").unwrap();
    assert!(d.matches_operand(OperandType::Double));
    let f = FieldDescriptor::parse("F").unwrap();
    assert!(f.matches_operand(OperandType::Float));
    let j = FieldDescriptor::parse("J").unwrap();
    assert!(j.matches_operand(OperandType::Long));
    let obj = FieldDescriptor::parse("Ljava/lang/String;").unwrap();
    assert!(obj.matches_operand(OperandType::ClassReference));
    assert!(!obj.matches_operand(OperandType::ArrayReference));
    let arr = FieldDescriptor::parse("[I").unwrap();
    assert!(arr.matches_operand(OperandType::ArrayReference));
    assert!(!arr.matches_operand(OperandType::ClassReference));
}

#[test]
fn method_descriptor_void_with_base_params() {
    let md = MethodDescriptor::parse("(IJ)V").unwrap();
    assert_eq!(md.parameters.len(), 2);
    assert!(matches!(md.parameters[0], FieldDescriptor::BaseType(BaseType::Int)));
    assert!(matches!(md.parameters[1], FieldDescriptor::BaseType(BaseType::Long)));
    assert!(matches!(md.return_type, MethodReturnType::Void));
}

#[test]
fn method_descriptor_object_params_and_return() {
    let md = MethodDescriptor::parse("(Ljava/lang/String;I)Ljava/lang/Object;").unwrap();
    assert_eq!(md.parameters.len(), 2);
    match &md.parameters[0] {
        FieldDescriptor::ObjectType(name) => assert_eq!(name, "java/lang/String"),
        other => panic!("unexpected {:?}", other),
    }
    assert!(matches!(md.parameters[1], FieldDescriptor::BaseType(BaseType::Int)));
    match &md.return_type {
        MethodReturnType::FieldDescriptor(FieldDescriptor::ObjectType(name)) => {
            assert_eq!(name, "java/lang/Object")
        }
        other => panic!("unexpected {:?}", other),
    }
}

#[test]
fn method_descriptor_no_params() {
    let md = MethodDescriptor::parse("()I").unwrap();
    assert!(md.parameters.is_empty());
    assert!(matches!(md.return_type, MethodReturnType::FieldDescriptor(FieldDescriptor::BaseType(BaseType::Int))));
}

#[test]
fn method_descriptor_array_param_without_semicolon() {
    let md = MethodDescriptor::parse("([I)V").unwrap();
    assert_eq!(md.parameters.len(), 1);
    match &md.parameters[0] {
        FieldDescriptor::ArrayType(a) => {
            assert_eq!(a.dimensions, 1);
            assert!(matches!(*a.field_descriptor, FieldDescriptor::BaseType(BaseType::Int)));
        }
        other => panic!("unexpected {:?}", other),
    }
    assert!(matches!(md.return_type, MethodReturnType::Void));
}

#[test]
fn method_descriptor_base_array_then_more_params() {
    let md = MethodDescriptor::parse("([BII)V").unwrap();
    assert_eq!(md.parameters.len(), 3);
    match &md.parameters[0] {
        FieldDescriptor::ArrayType(a) => {
            assert_eq!(a.dimensions, 1);
            assert!(matches!(*a.field_descriptor, FieldDescriptor::BaseType(BaseType::Byte)));
        }
        other => panic!("unexpected {:?}", other),
    }
    assert!(matches!(md.parameters[1], FieldDescriptor::BaseType(BaseType::Int)));
    assert!(matches!(md.parameters[2], FieldDescriptor::BaseType(BaseType::Int)));
    assert!(matches!(md.return_type, MethodReturnType::Void));
}

#[test]
fn method_descriptor_arrays_and_objects_mixed() {
    let md = MethodDescriptor::parse("([[ILjava/lang/String;[Ljava/lang/Object;J)[D").unwrap();
    assert_eq!(md.parameters.len(), 4);
    match &md.parameters[0] {
        FieldDescriptor::ArrayType(a) => {
            assert_eq!(a.dimensions, 2);
            assert!(matches!(*a.field_descriptor, FieldDescriptor::BaseType(BaseType::Int)));
        }
        other => panic!("unexpected {:?}", other),
    }
    match &md.parameters[1] {
        FieldDescriptor::ObjectType(s) => assert_eq!(s, "java/lang/String"),
        other => panic!("unexpected {:?}", other),
    }
    match &md.parameters[2] {
        FieldDescriptor::ArrayType(a) => {
            assert_eq!(a.dimensions, 1);
            assert!(matches!(*a.field_descriptor, FieldDescriptor::ObjectType(ref s) if s == "java/lang/Object"));
        }
        other => panic!("unexpected {:?}", other),
    }
    assert!(matches!(md.parameters[3], FieldDescriptor::BaseType(BaseType::Long)));
    match &md.return_type {
        MethodReturnType::FieldDescriptor(FieldDescriptor::ArrayType(a)) => {
            assert_eq!(a.dimensions, 1);
            assert!(matches!(*a.field_descriptor, FieldDescriptor::BaseType(BaseType::Double)));
        }
        other => panic!("unexpected {:?}", other),
    }
}

#[test]
fn method_descriptor_without_close_paren_is_malformed() {
    assert!(matches!(MethodDescriptor::parse("(IV"), Err(ParseError::MalformedDescriptor)));
    assert!(matches!(MethodDescriptor::parse(""), Err(ParseError::MalformedDescriptor)));
}
