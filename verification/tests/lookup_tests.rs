use jvm::class::{Class, ClassError, ConstantPool, FieldInfo, Method, ObjectField};
use jvm::descriptor::{BaseType, FieldDescriptor};
use jvm::strmap::StrMap;
use std::rc::Rc;
use std::sync::RwLock;

fn method(name: &str, descriptor: &str) -> Method {
    Method {
        access_flags: 1,
        name: name.to_string(),
        name_index: 0,
        descriptor: descriptor.to_string(),
        descriptor_index: 0,
        attributes_count: 0,
        attribute_map: StrMap::new(),
    }
}

fn sample_class() -> Class {
    let mut field_map = StrMap::new();
    field_map.insert(
        "x".to_string(),
        ObjectField {
            offset: 8,
            info: FieldInfo {
                access_flags: 0,
                name: "x".to_string(),
                field_descriptor: FieldDescriptor::BaseType(BaseType::Int),
                attribute_map: StrMap::new(),
            },
        },
    );
    let mut by_descriptor = StrMap::new();
    by_descriptor.insert("()V".to_string(), Rc::new(method("run", "()V")));
    by_descriptor.insert("(I)V".to_string(), Rc::new(method("run", "(I)V")));
    let mut method_map = StrMap::new();
    method_map.insert("run".to_string(), by_descriptor);
    Class {
        constant_pool: ConstantPool::new(),
        access_flags: 0x21,
        this_class: "Sample".to_string(),
        super_class: "java/lang/Object".to_string(),
        interfaces: vec![],
        field_map,
        method_map,
        attribute_map: StrMap::new(),
        static_been_seen: Rc::new(RwLock::new(false)),
        heap_size: 4,
        full_heap_size: 4,
    }
}

#[test]
fn class_get_field() {
    let class = sample_class();
    let f = class.get_field(&"x".to_string()).unwrap();
    assert_eq!(f.offset, 8);
    assert_eq!(f.info.name, "x");
    assert!(matches!(class.get_field(&"y".to_string()), Err(ClassError::FieldNotFound)));
}

#[test]
fn class_get_method() {
    let class = sample_class();
    let m = class.get_method("run", "(I)V").unwrap();
    assert_eq!(m.descriptor, "(I)V");
    let m = class.get_method("run", "()V").unwrap();
    assert_eq!(m.descriptor, "()V");
    assert!(matches!(class.get_method("run", "(J)V"), Err(ClassError::MethodNotFound)));
    assert!(matches!(class.get_method("walk", "()V"), Err(ClassError::MethodNotFound)));
}

#[test]
fn class_has_method() {
    let class = sample_class();
    assert!(class.has_method("run", "()V"));
    assert!(class.has_method("run", "(I)V"));
    assert!(!class.has_method("run", "(J)V"));
    assert!(!class.has_method("walk", "()V"));
}

#[test]
fn strmap_insert_replaces_and_keeps_others() {
    let mut m: StrMap<u32> = StrMap::new();
    assert!(m.get("a").is_none());
    m.insert("a".to_string(), 1);
    m.insert("b".to_string(), 2);
    m.insert("a".to_string(), 3);
    assert_eq!(m.get("a"), Some(&3));
    assert_eq!(m.get("b"), Some(&2));
    assert!(m.contains_key("b"));
    assert!(!m.contains_key("c"));
    assert!(m.get("").is_none());
}
