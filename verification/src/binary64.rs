//! Double-precision numbers, held as their 64 bits and computed with integers.

pub mod double;
pub mod model;
pub mod order;
pub mod rounding;
