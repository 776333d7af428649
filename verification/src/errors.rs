use vstd::prelude::*;

verus! {

/// The failures that the noise mechanism and the rounding policy can report.
///
/// A wrong scale or a wrong rounding step must surface to the caller instead
/// of being papered over with a default, because a silently substituted
/// parameter would weaken the privacy guarantee without anyone noticing.
#[derive(Clone, Copy, Debug, PartialEq, Eq, Structural)]
pub enum LaplaceError {
    /// The scale handed to the Laplace mechanism was not strictly positive,
    /// so no distribution could be constructed.
    DistributionCreationError,
    /// A domain limit was neither absent nor a positive number.
    InvalidDomain,
    /// The rounding step was zero; rounding to a multiple of zero is undefined.
    InvalidArgRoundingStepZero,
    /// A rounding step could not be applied for another reason.
    RoundingStepError,
}

impl LaplaceError {
    /// A short human-readable description of the failure.
    pub fn describe(&self) -> (s: &'static str)
        ensures
            s@ == match self {
                LaplaceError::DistributionCreationError => "unable to create Laplace distribution: scale must be positive"@,
                LaplaceError::InvalidDomain => "invalid domain limit: must be absent or a positive non-zero number"@,
                LaplaceError::InvalidArgRoundingStepZero => "rounding step zero not allowed"@,
                LaplaceError::RoundingStepError => "rounding step error"@,
            },
    {
        match self {
            LaplaceError::DistributionCreationError => {
                "unable to create Laplace distribution: scale must be positive"
            },
            LaplaceError::InvalidDomain => {
                "invalid domain limit: must be absent or a positive non-zero number"
            },
            LaplaceError::InvalidArgRoundingStepZero => "rounding step zero not allowed",
            LaplaceError::RoundingStepError => "rounding step error",
        }
    }
}

} // verus!
