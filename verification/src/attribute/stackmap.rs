//! Stack map frames of the `StackMapTable` attribute.

use vstd::prelude::*;

verus! {

/// The kinds of stack map frame.
#[derive(Debug)]
pub enum StackMapFrame {
    SameFrame,
    SameLocals1StackItemFrame,
    SameLocals1StackItemFrameExtended,
    ChopFrame,
    SameFrameExtended,
    AppendFrame,
    FullFrame,
}

/// A frame with the same locals as the previous frame and an empty stack.
#[derive(Debug)]
pub struct SameFrame {}

} // verus!
