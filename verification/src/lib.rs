//! A small stack-based virtual machine for a dynamically typed,
//! Lisp-flavored language.
//!
//! The crate provides a tagged value model with transparent pointer
//! sharing, an environment of linked frames supporting lexical closure
//! capture, a loader that merges independently produced program units
//! into one global address space, and an instruction-dispatch
//! interpreter operating over a per-job operand stack.

pub mod data;
pub mod err;
pub mod job;
pub mod mem;
pub mod vm;
