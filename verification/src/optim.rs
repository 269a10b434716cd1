//! Optimizers: pure parameter-update rules outside the trace.

pub mod sgd;
