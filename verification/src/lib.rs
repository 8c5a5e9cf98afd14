//! Polynomial equations of degree at most two: read from text, reduced to
//! the form `polynomial = 0`, written back, and classified by what solves
//! them.
//!
//! Coefficients are exact decimal numbers of any size, so that reading,
//! adding, multiplying and writing them loses nothing, and the text of a
//! polynomial reads back as that polynomial.
//!
//! - [`decimal`]: the numbers, their arithmetic, their text.
//! - [`grammar`]: what the terms of a text are.
//! - [`parser`]: the scanner that reads a text as the grammar says.
//! - [`polynomes`]: polynomials, their degree, coefficients, difference and
//!   text.
//! - [`utils`]: the absolute value, and how a sum of terms is written.
//! - [`equation`]: an equation's reduced form and its kind of solution.
//! - [`roundtrip`]: the proof that what is written reads back.
//! - [`digits`], [`text`]: arithmetic on digit sequences, and characters.

pub mod decimal;
pub mod digits;
pub mod equation;
pub mod grammar;
pub mod parser;
pub mod polynomes;
pub mod roundtrip;
pub mod text;
pub mod utils;
