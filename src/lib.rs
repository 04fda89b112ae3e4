//! Exact polynomial arithmetic over `i64` coefficients and Newton-style
//! incremental interpolation through integer sample points.
//!
//! Every operation that could leave the `i64` range is checked: it returns
//! `None` (or an error) exactly when some intermediate value would not fit.
//! The contracts are stated over the mathematical model in [`model`].

pub mod model;
pub mod polynom;
pub mod interpolate;

pub use interpolate::{Interpolant, InterpolationError, Point};
pub use polynom::Polynom;
