//! The object model.

pub mod object;
