//! Records: their keys, their values and their run-time description.

pub mod key;
pub mod runtime;
