//! A register-free, stack-based bytecode virtual machine together with the
//! custom memory arenas that back every heap-like allocation it performs.
//!
//! The crate is organised leaf to root: [`arena`] holds the bump allocator
//! and the free-list-recycling allocator, [`object`] the tagged value type,
//! [`stack`] the growable stacks used for operands and call frames,
//! [`program`] the instruction sequence with its interning and memoization
//! tables, and [`vm`] the fetch-decode-execute loop.

pub mod arena;
pub mod binops;
pub mod builtin;
pub mod error;
pub mod file;
pub mod frame;
pub mod indexmap;
pub mod map;
pub mod mutable;
pub mod object;
pub mod operation;
pub mod program;
pub mod span;
pub mod stack;
pub mod utils;
pub mod vm;
