//! Operator library: stateless forward rules and their gradient rules.

pub mod elementwise;
pub mod linalg;
pub mod shapes;
