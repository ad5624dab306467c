//! Set operations on files taken as sets of lines.
pub mod args;
pub mod calculate;
pub mod help;
pub mod laws;
pub mod lines;
pub mod model;
pub mod outside;
pub mod operands;
pub mod operations;
pub mod render;
pub mod set;
pub mod style;
pub mod styles;
pub mod tally;
