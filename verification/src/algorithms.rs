//! The arithmetic kernels on raw limb sequences.
pub mod addition;
pub mod comparison;
pub mod division;
pub mod multiplication;
pub mod subtraction;
pub mod util;
