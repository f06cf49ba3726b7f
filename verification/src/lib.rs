//! A deterministic fixed-point numerics engine and the automated-market-maker
//! swap math built on it: 256-bit fixed-scale arithmetic, integer square
//! root, natural logarithm, fractional exponentiation, sign-magnitude
//! arithmetic, fee calculation, and a reserve-invariant swap calculator.

pub mod checks;
pub mod decimal;
pub mod error;
pub mod fees;
pub mod fixed;
pub mod math;
pub mod price;
pub mod swap_calculator;
pub mod swap_result;
