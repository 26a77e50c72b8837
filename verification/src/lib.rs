//! A desk calculator in the manner of `dc`: reverse-polish notation over
//! arbitrary-precision fixed-point numbers.
pub mod num;
pub mod fixed;
pub mod memory;
pub mod eval;
pub mod laws;
