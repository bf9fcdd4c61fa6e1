//! Executors of pushed-down queries.

pub mod projection_executor;
