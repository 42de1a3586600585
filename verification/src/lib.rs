//! Bessel-function evaluation engine over fixed-point complex arguments.
//!
//! The engine evaluates the Bessel families J (first kind), Y (second kind),
//! I (modified first kind), K (modified second kind) and the two Hankel
//! functions by truncated series summation. Real quantities are carried as
//! binary fixed-point values so that every arithmetic step has an exact,
//! machine-checked meaning; the transcendental seed values that the series
//! need (gamma-function reciprocals, complex powers, trigonometric factors)
//! are supplied by the caller as plain fixed-point values.

pub mod fixed;
pub mod complex;
pub mod series;
pub mod bessel;

pub use crate::fixed::Fx;
pub use crate::complex::Cx;
pub use crate::bessel::{j, jf, i, y, k, hankel_first, hankel_second};
pub use crate::bessel::{ReflectInputs, KInputs, YSupport, KSupport, HankelSupport};
