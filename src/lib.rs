//! A fixed-capacity pool of values addressed by generation-tagged handles.
//!
//! Handles stay meaningful after their slot is reused: a handle names one
//! insertion, not one slot, so a handle whose value was removed never reaches
//! a value inserted later into the same slot.
//!
//! A stale handle is an ordinary input: `get`, `get_mut`, `contains` and
//! `remove` answer it with "absent" and change nothing. The capacity is a
//! const parameter of the type and must be positive.

pub mod index;
pub mod arena;

pub use index::GenerationIndex;
pub use arena::GenerationalArena;
