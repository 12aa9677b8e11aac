//! Projection pushdown over an arena-allocated logical plan, and the
//! clamping kernels that plans evaluate on numeric columns.
//!
//! Column names are interned symbols (`u64`). Plan nodes and expression
//! nodes live in append-only arenas and refer to each other by handle.
pub mod expr;
pub mod plan;
pub mod context;
pub mod pushdown;
pub mod clip;
