//! The encryption layer.

pub mod errors;
