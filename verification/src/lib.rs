//! Singly linked chains of nodes held in an arena.
//!
//! A chain is identified by a handle to its head node; nodes live in an
//! [`arena::Arena`] and link to their successors by handle. The operations
//! ([`insert`], [`remove`], [`access`], [`find`]) mirror the classic
//! pointer-manipulation routines on such a chain, with contracts stated
//! over the mathematical chain model in [`model`].

pub mod model;
pub mod arena;
pub mod ops;
pub mod laws;

pub use ops::access;
pub use ops::find;
pub use ops::insert;
pub use ops::remove;
