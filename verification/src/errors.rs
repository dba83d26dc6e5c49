//! Error kinds of the storage core.

use crate::internal::object::types::ObjectType;
use vstd::prelude::*;

verus! {

/// Why a delta could not be applied to its base.
#[derive(Clone, Copy, Debug, PartialEq, Eq, Structural)]
pub enum DecodeError {
    /// A copy instruction names bytes that lie beyond the end of the base.
    OutOfRange,
    /// The instruction stream ends in the middle of an instruction.
    Truncated,
}

/// A payload does not have the shape that its object type promises.
#[derive(Clone, Copy, Debug, PartialEq, Eq, Structural)]
pub struct ConstructionError {
    /// The type as which the payload was to be read.
    pub object_type: ObjectType,
}

impl DecodeError {
    /// A one-line description of the error.
    pub fn message(&self) -> (text: &'static str)
        ensures
            text@ == (match *self {
                DecodeError::OutOfRange => "copy instruction reaches beyond the base"@,
                DecodeError::Truncated => "delta ends in the middle of an instruction"@,
            }),
    {
        match self {
            DecodeError::OutOfRange => "copy instruction reaches beyond the base",
            DecodeError::Truncated => "delta ends in the middle of an instruction",
        }
    }
}

} // verus!
