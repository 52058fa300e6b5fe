//! Why an operation on polynomials can fail.
use vstd::prelude::*;

verus! {

/// Why a polynomial could not be constructed, multiplied or divided.
#[derive(Debug, Clone, Copy, PartialEq, Eq)]
pub enum Error {
    /// A root was given twice.
    DuplicateRoots,
    /// Two points to interpolate have the same X coordinate.
    DuplicateCoordinates,
    /// The polynomial is not a multiple of the divisor.
    NonZeroRemainder,
    /// The degree of a product exceeds the capacity of the two-adic transform.
    CapacityExceeded,
}

impl Error {
    /// Returns a short description.
    pub fn message(&self) -> (r: &'static str)
        ensures
            r@ == match *self {
                Error::DuplicateRoots => "duplicate roots"@,
                Error::DuplicateCoordinates => "duplicate X-coordinates"@,
                Error::NonZeroRemainder => "non-zero remainder in division by (x^n - 1)"@,
                Error::CapacityExceeded => "transform capacity exceeded"@,
            },
    {
        match *self {
            Error::DuplicateRoots => "duplicate roots",
            Error::DuplicateCoordinates => "duplicate X-coordinates",
            Error::NonZeroRemainder => "non-zero remainder in division by (x^n - 1)",
            Error::CapacityExceeded => "transform capacity exceeded",
        }
    }
}

} // verus!
