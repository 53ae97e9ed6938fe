//! Dropping privileges to the minimum that the work at hand needs.
pub mod apply;
pub mod plan;
