//! Rowly: a CSV-first table model with an undoable editing process layer
//! and the Rowly DSL that drives it.

pub mod cli;
pub mod data;
pub mod excel_python;
pub mod gui;
pub mod json;
pub mod logical_table;
pub mod numbers;
pub mod process;
pub mod project;
pub mod rowly_dsl;
pub mod rowlyx;
pub mod text;
