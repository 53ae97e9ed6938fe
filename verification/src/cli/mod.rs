//! Command-line arguments of `byssusd` and `byssus`, once they are parsed.
pub mod byssus;
pub mod byssusd;
