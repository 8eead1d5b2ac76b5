//! Loading of Java class files: the constant pool, field and method
//! descriptors, attributes, fields, methods and class lookups.

pub mod attribute;
pub mod bytes;
pub mod class;
pub mod constant;
pub mod descriptor;
pub mod mutf8;
pub mod operand;
pub mod strmap;
