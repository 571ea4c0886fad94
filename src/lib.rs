//! A reference-counted object runtime and a bridge to its immutable set type:
//! the frozen-set wrapper, its two-phase builder and its two iterators.
pub mod runtime;
pub mod ownership;
pub mod frozenset;
pub mod entry_iter;
pub mod protocol_iter;
