//! The kinds of value that an operand-stack slot of the virtual machine holds.

use vstd::prelude::*;

verus! {

/// The kind of value held in an operand-stack slot.
#[derive(Debug, Clone, Copy, PartialEq, Eq, Structural)]
pub enum OperandType {
    Char,
    Int,
    Float,
    Long,
    Double,
    ClassReference,
    ArrayReference,
}

} // verus!
