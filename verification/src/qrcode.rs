//! Core value types of the symbol pipeline: encoding modes, symbol versions,
//! error-correction levels, data masks, and the error taxonomy.
use vstd::prelude::*;

verus! {

/// Segment encoding mode: how the text payload is compacted into bits.
#[derive(Clone, Copy, PartialEq, Eq, Structural, Debug)]
pub enum Mode {
    Numeric,
    Alphanumeric,
    Byte,
}

/// Symbol size class, 1 through 40; grid width is `4 * version + 17`.
#[derive(Clone, Copy, PartialEq, Eq, Structural, Debug)]
pub struct Version(pub usize);

impl Version {
    /// The standard admits versions 1 through 40 only.
    pub open spec fn valid(self) -> bool {
        1 <= self.0 <= 40
    }

    /// Side length of the module grid for this version.
    pub open spec fn spec_width(self) -> int {
        4 * self.0 + 17
    }
}

/// Error-correction level: redundancy tier traded against data capacity.
#[derive(Clone, Copy, PartialEq, Eq, Structural, Debug)]
pub enum ECL {
    Low,
    Medium,
    Quartile,
    High,
}

/// Index of a level in the format-information table, in declaration order.
pub open spec fn spec_ecl_index(ecl: ECL) -> int {
    match ecl {
        ECL::Low => 0,
        ECL::Medium => 1,
        ECL::Quartile => 2,
        ECL::High => 3,
    }
}

/// Two-bit level code carried inside the format information; the standard
/// mandates this non-monotonic assignment.
pub open spec fn spec_ecl_value(ecl: ECL) -> u32 {
    match ecl {
        ECL::Low => 1,
        ECL::Medium => 0,
        ECL::Quartile => 3,
        ECL::High => 2,
    }
}

/// Table index of an error-correction level.
pub fn ecl_index(ecl: ECL) -> (r: usize)
    ensures
        r == spec_ecl_index(ecl),
{
    match ecl {
        ECL::Low => 0,
        ECL::Medium => 1,
        ECL::Quartile => 2,
        ECL::High => 3,
    }
}

/// One of the eight standardized data-mask patterns.
#[derive(Clone, Copy, PartialEq, Eq, Structural, Debug)]
pub enum Mask {
    M0,
    M1,
    M2,
    M3,
    M4,
    M5,
    M6,
    M7,
}

/// Index of a mask pattern, 0 through 7.
pub open spec fn spec_mask_index(mask: Mask) -> int {
    match mask {
        Mask::M0 => 0,
        Mask::M1 => 1,
        Mask::M2 => 2,
        Mask::M3 => 3,
        Mask::M4 => 4,
        Mask::M5 => 5,
        Mask::M6 => 6,
        Mask::M7 => 7,
    }
}

/// The mask pattern bearing a given index (7 and up give the last).
pub open spec fn spec_mask_of(i: int) -> Mask {
    if i == 0 {
        Mask::M0
    } else if i == 1 {
        Mask::M1
    } else if i == 2 {
        Mask::M2
    } else if i == 3 {
        Mask::M3
    } else if i == 4 {
        Mask::M4
    } else if i == 5 {
        Mask::M5
    } else if i == 6 {
        Mask::M6
    } else {
        Mask::M7
    }
}

/// Table index of a mask pattern.
pub fn mask_index(mask: Mask) -> (r: usize)
    ensures
        r == spec_mask_index(mask),
{
    match mask {
        Mask::M0 => 0,
        Mask::M1 => 1,
        Mask::M2 => 2,
        Mask::M3 => 3,
        Mask::M4 => 4,
        Mask::M5 => 5,
        Mask::M6 => 6,
        Mask::M7 => 7,
    }
}

/// The mask pattern with a given index, 0 through 7.
pub fn mask_of_index(i: usize) -> (r: Mask)
    requires
        i < 8,
    ensures
        spec_mask_index(r) == i,
        r == spec_mask_of(i as int),
{
    match i {
        0 => Mask::M0,
        1 => Mask::M1,
        2 => Mask::M2,
        3 => Mask::M3,
        4 => Mask::M4,
        5 => Mask::M5,
        6 => Mask::M6,
        _ => Mask::M7,
    }
}

/// Failure surface of the pipeline. Every error is recoverable by the
/// caller: retrying with a larger version or corrected input is a policy
/// decision above this library.
#[derive(Clone, Copy, PartialEq, Eq, Structural, Debug)]
pub enum QrError {
    /// The text holds a character invalid for its segment's mode.
    InvalidCharacter,
    /// The payload does not fit the (version, level) capacity.
    CapacityExceeded,
    /// The codewords handed to the matrix builder do not match the
    /// declared version's data capacity.
    MalformedCodewords,
}

} // verus!
