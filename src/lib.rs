//! A reverse-Polish calculator over exact rationals that carry physical units.

/// Exact rational numbers.
pub mod rational;
/// Dimensions, base units and derived units.
pub mod units;
/// Numbers with dimensions and display units.
pub mod quantity;
/// Gauss-Jordan elimination over exact rationals.
pub mod linear_system;
/// Exact number literals.
pub mod parsing;
/// The scanner that turns a command into tokens.
pub mod tokenizer;
/// String building.
pub mod text;
/// The stack machine that evaluates commands.
pub mod interpreter;
