//! Stoichiometry calculator: parsing of chemical formulas and equations,
//! exact-integer balancing of equations, and quantity (mass / mole)
//! computations on top of the balanced coefficients.

pub mod arith;
pub mod chemistry;
pub mod data_loading;
pub mod lin_alg;
pub mod parsing;
