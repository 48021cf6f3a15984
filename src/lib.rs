pub mod chip8;
pub mod memory;
pub mod nibbles;
pub mod reader;
pub mod theorems;
