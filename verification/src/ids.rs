//! Plain identifiers of the semantic and of the lowered model.
use vstd::prelude::*;

verus! {

/// A lowered variable: its index in the variable table of the function being lowered.
#[derive(Clone, Copy, Debug, PartialEq, Eq, Hash, Structural)]
pub struct VariableId(pub usize);

/// A block of the function being lowered: its index in the block table.
#[derive(Clone, Copy, Debug, PartialEq, Eq, Hash, Structural)]
pub struct BlockId(pub usize);

/// A semantic variable: a parameter or a local of the source function.
#[derive(Clone, Copy, Debug, PartialEq, Eq, Hash, Structural)]
pub struct VarId(pub u64);

/// A member of a struct.
#[derive(Clone, Copy, Debug, PartialEq, Eq, Hash, Structural)]
pub struct MemberId(pub u64);

/// A struct with all its generic arguments given.
#[derive(Clone, Copy, Debug, PartialEq, Eq, Hash, Structural)]
pub struct ConcreteStructId(pub usize);

/// A pointer to a node of the syntax tree that survives edits elsewhere in the file.
#[derive(Clone, Copy, Debug, PartialEq, Eq, Hash, Structural)]
pub struct StablePtrId(pub u64);

/// A location in the source: that of a syntax node, with no further notes attached to it.
#[derive(Clone, Copy, Debug, PartialEq, Eq, Hash, Structural)]
pub struct LocationId {
    pub stable_ptr: StablePtrId,
}

} // verus!
