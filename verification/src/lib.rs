//! A metered, stack-based bytecode virtual machine.
//!
//! A process is a header, code, a stack, a map and a list of memory areas
//! (`formats`). Its snapshot is a flat run of words, and its binary image
//! those words as big-endian bytes (`image`). The engine (`vm`) executes the
//! instruction set (`ops`) step by step against gas and memory budgets; a
//! process can run another one that lies as a snapshot in one of its areas.
//! What a step and a run are is defined in `semantics`, and the engine is
//! proved to compute exactly that. The bridge (`container`) serves a process
//! that yields with host functions.

pub mod container;
pub mod formats;
pub mod image;
pub mod ops;
pub mod semantics;
pub mod vm;
