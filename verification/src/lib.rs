//! Olang interpreter core: verified error formatting, dependency tracking,
//! operator semantics, pattern matching and loop analysis.

pub mod text;
pub mod distance;
pub mod ast;
pub mod value;
pub mod errors;
pub mod ops;
pub mod range_iter;
pub mod patterns;
pub mod loop_promo;
pub mod string_map;
pub mod module_cache;
pub mod environment;
pub mod spawn_registry;
pub mod jit;
pub mod diagnostics;
pub mod cache;
pub mod module_store;
pub mod memory;
pub mod traits;
pub mod par_for;
pub mod calls;
pub mod resolution;
