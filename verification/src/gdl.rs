//! The game's script engine: scenario files, their parser and the virtual machine's state.
pub mod scenario;
pub mod parser;
pub mod secretfilter;
pub mod vm;
pub mod instruction;
