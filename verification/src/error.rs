//! The failures of the generator.

use vstd::prelude::*;

verus! {

/// The three families a failure belongs to.
#[derive(Clone, Copy, Debug, PartialEq, Eq, Structural)]
pub enum ErrorKind {
    /// The configuration breaks one of the rules that generation relies on.
    Configuration,
    /// The pixel grid cannot be mapped: its width is zero.
    InvalidGeometry,
    /// A worker did not deliver its chunk.
    Computation,
}

/// Every way in which the field generator refuses to produce a result.
///
/// No failure is recovered from: the computation is deterministic, so the same
/// input fails the same way again.
#[derive(Clone, Copy, Debug, PartialEq, Eq, Structural)]
pub enum Error {
    /// The iteration limit is above [`crate::palette::MAX_LIMIT`].
    LimitTooLarge,
    /// The number of components per colour is not
    /// [`crate::palette::COLOR_COMPONENTS`].
    UnsupportedComponents,
    /// The palette entry at this position has another number of components
    /// than the configuration announces.
    ComponentMismatch(usize),
    /// The palette holds no colour.
    EmptyPalette,
    /// The work was to be split among zero workers.
    NoWorkers,
    /// A pixel index was to be mapped on a grid of width zero.
    InvalidGeometry,
    /// The worker at this position failed; no partial field is handed out.
    WorkerFailed(usize),
}

impl Error {
    /// The family of `self`.
    pub open spec fn spec_kind(self) -> ErrorKind {
        match self {
            Error::LimitTooLarge => ErrorKind::Configuration,
            Error::UnsupportedComponents => ErrorKind::Configuration,
            Error::ComponentMismatch(_) => ErrorKind::Configuration,
            Error::EmptyPalette => ErrorKind::Configuration,
            Error::NoWorkers => ErrorKind::Configuration,
            Error::InvalidGeometry => ErrorKind::InvalidGeometry,
            Error::WorkerFailed(_) => ErrorKind::Computation,
        }
    }

    /// The family of `self`.
    pub fn kind(&self) -> (k: ErrorKind)
        ensures
            k == self.spec_kind(),
    {
        match self {
            Error::LimitTooLarge => ErrorKind::Configuration,
            Error::UnsupportedComponents => ErrorKind::Configuration,
            Error::ComponentMismatch(_) => ErrorKind::Configuration,
            Error::EmptyPalette => ErrorKind::Configuration,
            Error::NoWorkers => ErrorKind::Configuration,
            Error::InvalidGeometry => ErrorKind::InvalidGeometry,
            Error::WorkerFailed(_) => ErrorKind::Computation,
        }
    }
}

} // verus!
