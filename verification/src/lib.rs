//! Storage core of a version-control platform: content-addressed objects and
//! a binary delta engine, with machine-checked contracts.

pub mod bytes;
pub mod command;
pub mod delta;
pub mod errors;
pub mod hash;
pub mod internal;
pub mod service;
pub mod varint;

pub use crate::delta::decode::delta_decode;
pub use crate::delta::{delta_encode, delta_encode_rate};
