//! Threshold secret reconstruction: shares encoded in positional numeral
//! bases are decoded into integer points, the polynomial through a threshold
//! number of them is evaluated at zero in exact rational arithmetic, and a
//! leave-one-out sweep names the shares that disagree with the reference
//! reconstruction.
pub mod bigint;
pub mod error;
pub mod fraction;
pub mod lagrange;
pub mod laws;
pub mod numeral;
pub mod recover;
pub mod shares;
pub mod symmetry;
pub mod tamper;
