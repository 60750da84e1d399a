//! The kinds of values.
use vstd::prelude::*;

verus! {

/// The kind of a value.
#[derive(Copy, Clone, Debug, Eq, PartialEq, Structural)]
pub enum ValueTy {
    /// A character.
    Ch,
    /// A string.
    String,
    /// Raw bytes.
    Binary,
    /// A boolean.
    Bool,
    /// An integer.
    Int,
    /// A complex number.
    Imaginary,
    /// A list.
    Array,
}

/// The three-bit id of each kind, in the order they are declared.
pub open spec fn value_ty_id(t: ValueTy) -> u8 {
    match t {
        ValueTy::Ch => 0,
        ValueTy::String => 1,
        ValueTy::Binary => 2,
        ValueTy::Bool => 3,
        ValueTy::Int => 4,
        ValueTy::Imaginary => 5,
        ValueTy::Array => 6,
    }
}

impl ValueTy {
    /// The three-bit id of this kind.
    pub fn id(self) -> (b: u8)
        ensures
            b == value_ty_id(self),
            b < 8,
    {
        match self {
            ValueTy::Ch => 0b000,
            ValueTy::String => 0b001,
            ValueTy::Binary => 0b010,
            ValueTy::Bool => 0b011,
            ValueTy::Int => 0b100,
            ValueTy::Imaginary => 0b101,
            ValueTy::Array => 0b110,
        }
    }
}

/// No two kinds share an id.
pub proof fn lemma_value_ty_id_injective(a: ValueTy, b: ValueTy)
    ensures
        value_ty_id(a) == value_ty_id(b) ==> a == b,
{
}

} // verus!
