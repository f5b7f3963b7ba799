use vstd::prelude::*;

verus! {

/// Why a reconstruction could not be carried out.
#[derive(Debug, Clone, Copy, PartialEq, Eq, Structural)]
pub enum ShareError {
    /// A share's value is not a numeral of its base, or the base lies outside
    /// 2 to 36.
    Decode,
    /// Two shares carry the same identifier.
    DuplicateShare,
    /// Fewer points than the threshold were supplied, or the threshold is 0.
    InsufficientShares,
    /// The interpolated value at zero is not an integer.
    NonIntegerResult,
}

} // verus!
