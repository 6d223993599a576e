use vstd::prelude::*;

verus! {

/// Why a store operation was refused. A refused operation changes nothing.
#[derive(Clone, Copy, Debug, PartialEq, Eq, Structural)]
pub enum StoreError {
    /// No dataset has the requested identifier.
    NotFound,
    /// The store cannot take the write (its key space is used up).
    StoreUnavailable,
    /// The write would break a uniqueness or range constraint.
    ConstraintViolation,
}

impl StoreError {
    /// A short, stable description of the failure.
    pub fn message(&self) -> (text: &'static str)
        ensures
            text@ == match *self {
                StoreError::NotFound => "dataset not found"@,
                StoreError::StoreUnavailable => "store unavailable"@,
                StoreError::ConstraintViolation => "constraint violation"@,
            },
    {
        match self {
            StoreError::NotFound => "dataset not found",
            StoreError::StoreUnavailable => "store unavailable",
            StoreError::ConstraintViolation => "constraint violation",
        }
    }
}

} // verus!
