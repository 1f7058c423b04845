//! Exact symbolic algebra on multivariate polynomials and rational functions
//! whose coefficients and exponents are fractions of 64-bit integers.
//!
//! The values are `Rational`, `Variable`, `Term`, `Polynomial` and `PolyRatio`.
//! Every operation is stated over a model of the value: a fraction is its own
//! model, the others have a view made of sequences. Where an exact result
//! does not fit in 64-bit parts, an operation returns an error and changes
//! nothing.
//!
//! What holds of the operations is proved over the models: in `laws` that
//! the canonical form is canonical and that bringing a polynomial into it
//! twice changes nothing; in `commute` and `associate` that sums do not
//! depend on order and grouping; in `product` and `grouping` that products
//! do not depend on order and grouping; in `exact` that an exact division
//! gives back the dividend; in `roundtrip` that the content of a
//! polynomial times the rest is the polynomial; in `fixed` that a ratio in
//! which nothing is left to clear or to cancel is its own canonical form;
//! in `sentinel` that a zero denominator stays zero; in `number` what holds
//! of the fractions themselves.

pub mod associate;
pub mod canonical;
pub mod commute;
pub mod content;
pub mod degrees;
pub mod distribute;
pub mod division;
pub mod error;
pub mod evaluate;
pub mod exact;
pub mod fixed;
pub mod fold;
pub mod grouping;
pub mod invariants;
pub mod laws;
pub mod layers;
pub mod number;
pub mod order;
pub mod ordering;
pub mod parser;
pub mod polynomial;
pub mod power;
pub mod product;
pub mod ratio;
pub mod rational;
pub mod render;
pub mod roots;
pub mod roundtrip;
pub mod sentinel;
pub mod shift;
pub mod tally;
pub mod term;
pub mod unique;
pub mod wellformed;
