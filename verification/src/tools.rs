//! The logic of the command-line tools: the scenario assembler and disassembler, and the
//! archive packer.
pub mod params;
pub mod assembler;
pub mod disassembler;
pub mod packer;
pub mod assemble;
pub mod disassemble;
pub mod round_trip;
