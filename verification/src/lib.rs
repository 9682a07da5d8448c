//! A reactive spreadsheet engine.
//!
//! A sheet is a grid of cells.  A cell holds a text, a number, a boolean or
//! a formula that refers to other cells.  Formulas are split into tokens
//! ([`parser::tokenizer`]), parsed into expression trees
//! ([`parser::ast_creator`]) and evaluated against the results of the cells
//! they refer to ([`ast_resolver`], [`builtin_functions`]).  The sheet
//! ([`spreadsheet`]) keeps the graph of these references
//! ([`dependency_graph`]) and evaluates, after every edit, the edited cell
//! and each cell that depends on it; [`coherence`] states what every cell of
//! a sheet evaluates to and what follows from it.
//!
//! The engine is generic in the numbers it computes with
//! ([`common_types::Numeric`]); [`whole::Whole`] is one kind of number.

pub mod ast_resolver;
pub mod builtin_functions;
pub mod coherence;
pub mod common_functions;
pub mod common_types;
pub mod dependency_graph;
pub mod parser;
pub mod spreadsheet;
pub mod text;
pub mod whole;
