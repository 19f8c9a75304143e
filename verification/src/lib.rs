//! A handle-based object pool.
//!
//! An [`Arena`] keeps its values densely packed, in order, and hands out an
//! [`Idx`] for each of them. A handle keeps naming its value while the arena
//! is compacted or reordered, and reports that the value is gone once it has
//! been removed.

pub mod arena;
pub mod handle;
pub mod iter;
pub mod laws;
pub mod model;
pub mod split;

pub use arena::Arena;
pub use arena::ArenaAccess;
pub use handle::render;
pub use handle::AsIdx;
pub use handle::Idx;
pub use iter::Entries;
pub use iter::EntriesMut;
pub use iter::Iter;
pub use iter::IterMut;
pub use split::ArenaSplit;
