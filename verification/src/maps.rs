//! The built-in operations of the `maps` module.

pub mod put_3;
