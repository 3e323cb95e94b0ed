//! Escape-time bookkeeping for the quadratic recurrence `z <- z*z + c` over a
//! rectangular grid of points of the complex plane.
//!
//! The library owns the per-point state (status, iterate, parameter, cycle
//! reference), the global iteration counter and the colour buffer, and decides
//! every transition. It holds no floating-point code: a number is carried as the
//! bit patterns of its two parts, and the three numeric kernels (grid placement,
//! one step of the recurrence, the shade of an iteration count) are handed in by
//! the caller as functions over those bit patterns. Every contract holds for
//! whatever the kernels return.

pub mod field;
pub mod number;
pub mod orbit;

pub use field::{Field, FieldError, StepResult, Wasmbrot};
pub use number::ComplexBits;
pub use orbit::{Orbit, Point, Probe};
