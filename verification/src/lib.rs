//! Debugging a simulated Cortex-M core from gdb, with SEGGER RTT in both directions.
//!
//! The library decides; it performs no I/O. An operation that needs the target, the
//! simulation or a socket asks for one access at a time, and goes on when it is told what
//! came of it.

pub mod access;
pub mod console;
pub mod delivery;
pub mod dialogue;
pub mod down;
pub mod error;
pub mod flow;
pub mod inputs;
pub mod laws;
pub mod locate;
pub mod memory;
pub mod model;
pub mod monitor;
pub mod numbers;
pub mod outputs;
pub mod pipe;
pub mod pump;
pub mod registers;
pub mod resume;
pub mod ring;
pub mod rtt;
pub mod scan;
pub mod stub;
pub mod text;
pub mod transfer;
pub mod up;
