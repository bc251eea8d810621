//! Complex numbers over IEEE-754 binary32 components, with elementwise
//! operations on vectors of them.
//!
//! Every component is held as its 32-bit encoding and all arithmetic is
//! carried out on integers, so that each operation can be stated against the
//! exact mathematical value of its operands and proved to round correctly.
//! The same holds of the texts: the decimal that a component is shown as is
//! proved to be the shortest one that reads back as that component.
pub mod arithmetic;
pub mod binary32;
pub mod complex;
pub mod complex_vector;
pub mod decimal;
pub mod equality;
pub mod laws;
mod powers;
pub mod rounding;
pub mod square_root;
pub mod text;
mod wide;
