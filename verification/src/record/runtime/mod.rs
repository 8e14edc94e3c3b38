//! Records whose columns are declared at run time.

pub mod row;
pub mod schema;
pub mod value;
