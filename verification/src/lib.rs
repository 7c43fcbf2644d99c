//! Relaxed-arithmetic wrappers for binary floating-point values, held as
//! IEEE 754 bit patterns.
//!
//! [`Fast<u32>`] carries a single-precision pattern and [`Fast<u64>`] a
//! double-precision one. The five arithmetic operators `+ - * / %` and
//! their assignment forms are *relaxed*: they take finite operands only,
//! which their callers must see to, and then give what ordinary
//! arithmetic gives, the exact result rounded once. Negation, the
//! comparisons and the elementary functions are not relaxed: they are
//! defined for every pattern.
//!
//! Everything is computed on the patterns, in integers, and proved against
//! the values that the patterns stand for:
//!
//! - [`format`] reads a pattern: sign, magnitude, NaN, infinity;
//! - [`rounding`] says what it is to round a quotient to the nearest
//!   magnitude, and [`pack`] does it;
//! - [`arith`], [`fused`], [`root`] and [`integral`] compute on
//!   magnitudes, [`ops`] and [`order`] on patterns;
//! - [`single`] and [`double`] hold the methods of the two wrappers, and
//!   the modules beside them their operators and comparisons;
//! - [`laws`] states what holds of all of it.
//!
//! The transcendental functions are not computed here. The functions that
//! are put together from them, such as [`Fast::log`], take them as
//! parameters.
pub mod arith;
pub mod assign;
pub mod bits;
pub mod double;
pub mod double_laws;
pub mod double_ops;
pub mod double_order;
pub mod format;
pub mod fused;
pub mod integral;
pub mod laws;
pub mod ops;
pub mod order;
pub mod pack;
pub mod root;
pub mod rounding;
pub mod single;
pub mod single_laws;
pub mod single_ops;
pub mod single_order;
pub mod sums;
pub mod wrapper;

pub use format::binary32;
pub use format::binary64;
pub use format::Format;
pub use wrapper::Fast;
