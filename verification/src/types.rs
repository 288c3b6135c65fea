//! The value types a table column can hold.
use vstd::prelude::*;

verus! {

/// A plain column value type.
#[derive(Debug, Clone, Copy, PartialEq, Eq, Structural)]
pub enum ValueType {
    Bool,
    Byte,
    Short,
    UShort,
    Int,
    UInt,
    Float,
    Double,
    Complex,
    DComplex,
    String,
}

} // verus!
