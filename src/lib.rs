//! A compiler and interpreter for a minimal tape-machine language whose
//! programs are written one instruction per character.

pub mod compiler;
pub mod machine;
pub mod types;
