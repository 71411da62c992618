//! General purpose helpers shared by the engine and its tools.
pub mod image;
pub mod lzss;
pub mod rect;
pub mod bitset;
pub mod register;
pub mod variable;
pub mod stack;
pub mod text;
pub mod io;
pub mod index_vec;
pub mod encoding;
