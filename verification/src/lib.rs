//! Guest-side memory regions for a sandboxed module.
//!
//! A host process hands byte buffers to a guest module and takes them back
//! through two numbers: a 32-bit address and a 32-bit length. This crate
//! manages the guest's linear memory on the guest's side: it reserves
//! regions, publishes each one through an eight-byte descriptor whose address
//! is the handle the host holds, copies bytes in and out, and releases
//! regions on request.
//!
//! * [`layout`]: sizes and alignments, and rounding an address up.
//! * [`descriptor`]: the region descriptor and its eight bytes in memory.
//! * [`model`]: the mathematical state of a linear memory, its transitions
//!   and the laws that hold of them.
//! * [`memory`]: the executable linear memory and its block table.
//! * [`exports`]: the operations on regions and on handles that a host calls.

pub mod descriptor;
pub mod exports;
pub mod layout;
pub mod memory;
pub mod model;
