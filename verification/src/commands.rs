//! The commands of the program, without their input and output.
pub mod grouping;
pub mod listing;
pub mod sort;
