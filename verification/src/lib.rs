//! A reader for a small Kernel-style Lisp whose values live in a
//! fixed-capacity arena.
//!
//! - [`types`]: [`ArenaIndex`] and [`ArenaError`].
//! - [`value`]: the [`Value`] stored in each slot, and what a slot means as
//!   an S-expression.
//! - [`lisp`]: the [`Lisp`] arena and its constructors.
//! - [`source`]: the character sources [`SliceSource`] and [`ChainSource`].
//! - [`parse`]: the S-expression reader.

pub mod types;
pub mod value;
pub mod lisp;
pub mod source;
pub mod parse;

pub use types::{ArenaError, ArenaIndex};
pub use value::Value;
pub use lisp::Lisp;
pub use source::{CharSource, ChainSource, SliceSource};
