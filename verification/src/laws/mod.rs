//! What the formats promise, stated apart from how they are written down: bit by bit, byte by
//! byte, and point by point.

pub mod alp;
pub mod bits;
pub mod blocks;
pub mod chimp;
pub mod chimp128;
pub mod decimal;
pub mod elf;
pub mod gorilla;
pub mod numbers;
pub mod packed;
pub mod steps;
