//! A region-based memory accounting library with fixed-capacity collections.
//!
//! A `MemoryBlock` owns a region of bytes with a monotone high-water mark.
//! `Arena`s are carved from a block and serve bump-pointer allocation
//! requests with alignment-aware placement and explicit capacity accounting.
//! The collections (`Array`, `List`, `HashMap`, `Table`, `RingBuffer`,
//! `StringBuilder`) draw their storage budget from an arena and never grow.

mod arena;
mod array;
mod builder;
mod hash_map;
mod keys;
mod list;
mod ring;
mod table;
mod text;

pub use arena::Arena;
pub use arena::MemoryBlock;
pub use arena::StrSink;
pub use array::Array;
pub use builder::StringBuilder;
pub use hash_map::Bucket;
pub use hash_map::HashMap;
pub use keys::StoreKey;
pub use list::List;
pub use list::Node;
pub use ring::RingBuffer;
pub use table::Key;
pub use table::Table;
