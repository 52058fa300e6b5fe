//! Polynomials over prime fields: arithmetic, interpolation, division, and number-theoretic
//! transforms on two-adic and three-adic domains.
pub mod algebra;
pub mod bluesky;
pub mod butterfly;
pub mod certificate;
pub mod convolution;
pub mod digits;
pub mod division;
pub mod domain_laws;
pub mod domains;
pub mod error;
pub mod fft;
pub mod field;
pub mod interpolation;
pub mod laws;
pub mod modular;
pub mod multiply;
pub mod operation_laws;
pub mod operators;
pub mod orders;
pub mod point_laws;
pub mod polynomial;
pub mod products;
pub mod roots;
pub mod sums;
pub mod three_adic;
pub mod transform;
pub mod two_adic;

pub use bluesky::Scalar;
pub use error::Error;
pub use field::{PrimeField, ThreeAdicField};
pub use polynomial::Polynomial;
