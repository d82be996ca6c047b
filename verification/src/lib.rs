//! A small evaluator for programs that are trees of byte strings.
//!
//! A value is an atom, which is a string of bytes, or a pair of two values.
//! Values live in an arena and are named by handles. They travel as bytes in
//! one fixed encoding. A program is a value too: it is run in an
//! environment, under a budget, by an evaluator that learns its operators
//! from a dialect.
//!
//! - [`allocator`]: the arena.
//! - [`encoding`], [`serialize`], [`object_table`], [`stream`]: the byte
//!   format, writing and reading; [`roundtrip`]: what is written can be read
//!   back.
//! - [`serialization_cache`]: values computed from the leaves up, such as the
//!   content hash of a tree; [`sha2`]: the hash function.
//! - [`cost`], [`reduction`], [`dialect`], [`path`], [`run_program`]: the
//!   evaluator; [`budget`]: what a smaller budget does.
//! - [`core_ops`], [`chia_dialect`], [`runtime_dialect`]: operators and the
//!   dialects made of them; [`serialized_program`]: programs that come as
//!   bytes.

pub mod allocator;
pub mod budget;
pub mod chia_dialect;
pub mod core_ops;
pub mod cost;
pub mod dialect;
pub mod encoding;
pub mod node;
pub mod object_table;
pub mod path;
pub mod reduction;
pub mod roundtrip;
pub mod run_program;
pub mod runtime_dialect;
pub mod serialization_cache;
pub mod serialize;
pub mod serialized_program;
pub mod sha2;
pub mod stream;
