//! A compiler and simulator for a nand2tetris-style hardware description
//! language with generic chip widths and `FOR … GENERATE` loops.
//!
//! HDL text is scanned and parsed into a [`parser::ChipHDL`], elaborated into a
//! concrete netlist of NAND and DFF leaves, and simulated by settling the
//! netlist to a fixed point. Every function carries a contract over a
//! mathematical model of its data, and the contracts are machine checked.

pub mod busmap;
pub mod chip;
pub mod error;
pub mod expr;
pub mod fitting;
pub mod netlist;
pub mod parser;
pub mod scanner;
pub mod settle;
pub mod simulator;
pub mod test_parser;
pub mod test_script;
pub mod text;
pub mod wellformed;
