//! Driver core for the ARMv7-A external debug interface.
//!
//! The crate drives an ARMv7-A processor through its memory-mapped debug
//! register bank: halting and resuming the core, reading and writing
//! architectural registers through the instruction-transfer mechanism,
//! accessing target memory via CPU-mediated loads and stores, and managing
//! hardware breakpoint units.  The lower-level transport is abstracted as a
//! trait that reads and writes 32-bit words at 64-bit addresses.

pub mod armv7a;
pub mod debug_regs;
pub mod errors;
pub mod instructions;
pub mod interface;
pub mod state;
