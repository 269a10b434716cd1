//! Small helpers around the trace.

pub mod params;
