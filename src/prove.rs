//! The choice of field that the proof driver runs over.
use vstd::prelude::*;

verus! {

/// Number of elements of the field that the proof system is parameterised
/// with.
pub const FIELD_SIZE: u128 = 2;

/// A field that the proof driver supports.
#[derive(Clone, Copy, Debug, PartialEq, Eq, Structural)]
pub enum ProofField {
    F2,
}

/// The proof system is parameterised with a field the driver has no circuits
/// for.
#[derive(Clone, Copy, Debug, PartialEq, Eq, Structural)]
pub struct UnsupportedFieldSize {
    pub size: u128,
}

impl ProofField {
    /// The name printed for the field.
    pub fn name(&self) -> (r: &'static str)
        ensures
            r@ == "F_2"@,
    {
        proof {
            reveal_strlit("F_2");
        }
        match self {
            ProofField::F2 => "F_2",
        }
    }

    /// The directory that holds the field's circuits.
    pub fn dir(&self) -> (r: &'static str)
        ensures
            r@ == "f2"@,
    {
        proof {
            reveal_strlit("f2");
        }
        match self {
            ProofField::F2 => "f2",
        }
    }
}

/// The field with `size` elements, if the driver supports it.
pub fn field_for_size(size: u128) -> (r: Result<ProofField, UnsupportedFieldSize>)
    ensures
        size == 2 ==> r == Ok::<ProofField, UnsupportedFieldSize>(ProofField::F2),
        size != 2 ==> r == Err::<ProofField, UnsupportedFieldSize>(UnsupportedFieldSize { size }),
{
    if size == 2 {
        Ok(ProofField::F2)
    } else {
        Err(UnsupportedFieldSize { size })
    }
}

/// The decision the proof driver starts with: the field it runs over.
pub fn main() -> (r: Result<ProofField, UnsupportedFieldSize>)
    ensures
        r == Ok::<ProofField, UnsupportedFieldSize>(ProofField::F2),
{
    field_for_size(FIELD_SIZE)
}

} // verus!
