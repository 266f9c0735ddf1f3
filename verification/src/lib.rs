//! Escape-time fractal fields over a pixel grid: the mapping between pixel
//! indices and pixels, the bounded orbit iteration, the static split of the
//! grid among workers, and the palette ramp that turns counts into colours.
//!
//! The library fixes every decision that is made on whole numbers and proves
//! it. Arithmetic on the plane itself is done in a number type of the
//! caller's choice, which enters through function values.

pub mod coords;
pub mod error;
pub mod partition;
pub mod escape;
pub mod field;
pub mod workers;
pub mod palette;
