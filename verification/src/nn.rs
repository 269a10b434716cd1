//! Neural-network pieces built on the operator library.

pub mod functions;
pub mod layers;
pub mod losses;
