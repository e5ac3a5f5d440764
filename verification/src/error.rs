use vstd::prelude::*;

verus! {

/// Error type for spectral graph operations
#[derive(Debug, Clone, Copy, PartialEq, Eq, Structural)]
pub enum SgError {
    NullInput,
    AllocationFailed,
    SingularMatrix,
    NoConvergence,
    InvalidParam,
    Disconnected,
}

/// The human-readable text of each error.
pub open spec fn error_text(e: SgError) -> Seq<char> {
    match e {
        SgError::NullInput => "NULL pointer"@,
        SgError::AllocationFailed => "allocation failure"@,
        SgError::SingularMatrix => "singular matrix"@,
        SgError::NoConvergence => "no convergence"@,
        SgError::InvalidParam => "invalid parameter"@,
        SgError::Disconnected => "disconnected graph"@,
    }
}

impl SgError {
    /// The message that describes this error.
    pub fn message(&self) -> (s: String)
        ensures
            s@ == error_text(*self),
    {
        match self {
            SgError::NullInput => "NULL pointer".to_owned(),
            SgError::AllocationFailed => "allocation failure".to_owned(),
            SgError::SingularMatrix => "singular matrix".to_owned(),
            SgError::NoConvergence => "no convergence".to_owned(),
            SgError::InvalidParam => "invalid parameter".to_owned(),
            SgError::Disconnected => "disconnected graph".to_owned(),
        }
    }
}

} // verus!
