//! Finds the game's card and inventory data in the memory image of a process
//! that hosts a 64-bit Mono runtime.
pub mod cards;
pub mod class;
pub mod dictionary;
pub mod heap;
pub mod inventory;
pub mod memory;
pub mod printings;
pub mod process;
pub mod regions;
pub mod strings;
pub mod text;
