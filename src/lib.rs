//! Hot code loading for a cross-compiled target running under an emulator
//! with a remote debugging server: ELF items, their differences, and the
//! packets that patch them into target memory.

pub mod diff;
pub mod gdb;
pub mod interface;
pub mod patch;
pub mod program;
pub mod supervisor;
