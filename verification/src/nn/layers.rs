//! Layers: parameter binding and the linear layer.

pub mod bind;
pub mod linear;
