//! Fixed-point decimal numbers for exact base-10 arithmetic.
//!
//! A [`Decimal`] stands for `significand / 10^scale`. Every operation is
//! pure, checks its own range, and reports failure as an [`Error`] value.
//!
//! Contracts are stated over [`Fixed`], the unbounded model of a decimal:
//! what a literal denotes and how a decimal is written (`text`), the
//! twenty-byte binary form (`binary`), and the arithmetic, order and normal
//! form (`model`). The module `laws` proves what holds of them whatever the
//! scales are.

pub mod arith;
pub mod binary;
pub mod decimal;
pub mod digits;
pub mod error;
pub mod format;
pub mod hashing;
pub mod laws;
pub mod model;
pub mod ordering;
pub mod parse;
pub mod scale;
pub mod text;
pub mod visitor;

pub use binary::ENCODED_LEN;
pub use decimal::Decimal;
pub use error::Error;
pub use model::Fixed;
pub use visitor::DecimalVisitor;
