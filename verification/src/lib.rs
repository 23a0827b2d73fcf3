//! Scanning, refining and freezing values in the memory of a running process.
//!
//! The library holds the decisions of a memory scanner and proves them: which
//! regions of a target are readable, which addresses hold a wanted value,
//! which candidates survive a second look, and what a value lock does at
//! each tick. It never touches the target itself. Whoever drives it reads
//! the target's address-space map and memory, hands over what was read, and
//! carries out what the library decides.

pub mod access;
pub mod lock;
pub mod refine;
pub mod region;
pub mod scan;
