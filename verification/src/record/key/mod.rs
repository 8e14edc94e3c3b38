//! Key types: what orders and locates a record.
//!
//! A key type comes with a total order (`compare`, and `cmp` in the standard
//! library's terms), an equality that agrees with the order, bytes that are
//! fed to a hasher (`hash`) and that agree with the equality, an exact byte
//! layout (`encode`, `size`, `decode`), and a form in which it is looked up
//! (`as_key_ref`, `to_key`). The numeric keys are in [`num`], the composite
//! key of a dynamic table in [`primary`], the ends of a range of keys in
//! [`bound`]; [`order`] holds what the orders are built from.

pub mod bound;
pub mod num;
pub mod order;
pub mod primary;
