use vstd::prelude::*;

verus! {

/// Failures that the library itself decides.
#[derive(Debug, Clone, Copy, PartialEq, Eq, Structural)]
pub enum ResError {
    /// A resource with the same `permission` is already stored.
    DuplicatePermission,
    /// Following parent links from some record never ends: the links form a cycle.
    CycleDetected,
}

impl ResError {
    /// A short message for the caller.
    pub fn message(&self) -> (r: String)
        ensures
            *self == ResError::DuplicatePermission ==> r@ == "permission already exists"@,
            *self == ResError::CycleDetected ==> r@ == "resource parent links form a cycle"@,
    {
        match self {
            ResError::DuplicatePermission => String::from_str("permission already exists"),
            ResError::CycleDetected => String::from_str("resource parent links form a cycle"),
        }
    }
}

} // verus!
