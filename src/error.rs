use vstd::prelude::*;

verus! {

/// Why an operation on the mirror was refused.
#[derive(Debug, PartialEq, Eq)]
pub enum CacheError {
    /// The location (or the parent directory it needs) is not indexed, or the
    /// root handed to construction does not exist in backing storage.
    LocationDoesNotExistError { location: String },
    /// The location is already indexed; directories and files are create-only.
    LocationAlreadyExistsError { location: String },
    /// Reading backing storage failed part-way through the initial scan.
    ScanFailedError { location: String },
}

impl CacheError {
    /// The location the error is about.
    pub fn location(&self) -> (r: &str)
        ensures
            r@ == self.location_view(),
    {
        match self {
            CacheError::LocationDoesNotExistError { location } => location.as_str(),
            CacheError::LocationAlreadyExistsError { location } => location.as_str(),
            CacheError::ScanFailedError { location } => location.as_str(),
        }
    }

    pub open spec fn location_view(&self) -> Seq<char> {
        match self {
            CacheError::LocationDoesNotExistError { location } => location@,
            CacheError::LocationAlreadyExistsError { location } => location@,
            CacheError::ScanFailedError { location } => location@,
        }
    }

    /// `LocationDoesNotExistError` about `loc`.
    pub open spec fn is_missing(&self, loc: Seq<char>) -> bool {
        self is LocationDoesNotExistError && self.location_view() == loc
    }

    /// `LocationAlreadyExistsError` about `loc`.
    pub open spec fn is_taken(&self, loc: Seq<char>) -> bool {
        self is LocationAlreadyExistsError && self.location_view() == loc
    }
}

} // verus!
