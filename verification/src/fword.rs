//! 16-bit signed and unsigned quantities in font design units.

use vstd::prelude::*;

verus! {

/// 16-bit signed quantity in font design units.
#[derive(Copy, Clone, Debug, PartialEq, Eq, Structural, PartialOrd, Ord)]
pub struct FWord(i16);

/// 16-bit unsigned quantity in font design units.
#[derive(Copy, Clone, Debug, PartialEq, Eq, Structural, PartialOrd, Ord)]
pub struct UfWord(u16);

impl View for FWord {
    type V = int;

    closed spec fn view(&self) -> int {
        self.0 as int
    }
}

impl View for UfWord {
    type V = int;

    closed spec fn view(&self) -> int {
        self.0 as int
    }
}

impl FWord {
    /// Wraps a raw value in design units.
    pub fn new(raw: i16) -> (r: Self)
        ensures
            r@ == raw,
    {
        Self(raw)
    }

    /// The raw value in design units.
    pub fn to_i16(self) -> (r: i16)
        ensures
            r == self@,
    {
        self.0
    }
}

impl UfWord {
    /// Wraps a raw value in design units.
    pub fn new(raw: u16) -> (r: Self)
        ensures
            r@ == raw,
    {
        Self(raw)
    }

    /// The raw value in design units.
    pub fn to_u16(self) -> (r: u16)
        ensures
            r == self@,
    {
        self.0
    }
}

/// Two signed quantities with the same raw value are the same quantity.
pub proof fn lemma_fword_by_value(a: FWord, b: FWord)
    requires
        a@ == b@,
    ensures
        a == b,
{
}

/// Two unsigned quantities with the same raw value are the same quantity.
pub proof fn lemma_ufword_by_value(a: UfWord, b: UfWord)
    requires
        a@ == b@,
    ensures
        a == b,
{
}

} // verus!
