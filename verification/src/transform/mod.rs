//! Transformation passes over functions.

pub mod fixed_point;
