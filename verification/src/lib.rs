//! Integers larger than the native word size.
//!
//! [`Natural`] is an unsigned number of arbitrary precision, stored as
//! little-endian 64-bit limbs; [`Integer`] adds a sign to it.  Every
//! operation carries a contract over the mathematical value it computes,
//! and every number that an operation returns is in canonical form: its
//! top limb is not zero, zero has no limbs, and zero is positive.
//!
//! The modules, leaves first:
//!
//! - [`limbs`]: the value of a limb sequence, and the facts about it;
//! - [`decimal`]: decimal text and the numbers it stands for;
//! - [`algorithms`]: addition, subtraction, multiplication, comparison
//!   and long division on raw limb sequences;
//! - [`division_result`]: the buffer in which a quotient is built from
//!   its most significant limb down;
//! - [`natural`], [`integer`], [`range`]: the number types;
//! - [`laws`]: the laws of arithmetic, proved of the operations.
#![allow(clippy::many_single_char_names)]

pub mod limbs;
pub mod decimal;
pub mod algorithms;
pub mod division_result;
pub mod natural;
pub mod integer;
pub mod range;
pub mod laws;

pub use natural::Natural;
pub use integer::Sign;
pub use integer::Integer;
pub use range::Range;
