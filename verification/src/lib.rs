use vstd::prelude::*;

pub mod arrange;
pub mod cli;
pub mod command;
pub mod csv;
pub mod datetime;
pub mod documents;
pub mod double;
pub mod extract;
pub mod guarantees;
pub mod io;
pub mod json;
pub mod keyorder;
pub mod keyspec;
pub mod meaning;
pub mod merge;
pub mod natural;
pub mod numbers;
pub mod order;
pub mod reading;
pub mod records;
pub mod render;
pub mod sorter;
pub mod spill;
pub mod tables;
pub mod text;
pub mod value;

verus! {
} // verus!
