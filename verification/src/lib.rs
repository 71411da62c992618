//! Reikura: the core logic of a scenario engine for Ikura GDL games.
pub mod util;
pub mod gfx;
pub mod gdl;
pub mod tools;
