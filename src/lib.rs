//! An index-addressed tree: an arena of values reached through stable ids, with a
//! doubly-linked tree of parent, sibling and child links on top of it.
pub mod arena;
pub mod entry_map;
pub mod hashmap;
pub mod ids;
pub mod iter;
pub mod links;
pub mod node;
pub mod node_ref;
pub mod node_ref_mut;
pub mod node_ref_mut_pair;
pub mod tree;
pub mod vec_arena;

pub use arena::Arena;
pub use hashmap::{HashmapArena, HashmapBucket};
pub use ids::{ArenaItemId, BucketId, BucketIdGenerator, EntryId};
pub use iter::{Children, Descendants, Edge, EdgeId, Traverse};
pub use node::Node;
pub use node_ref::Ref;
pub use node_ref_mut::RefMut;
pub use node_ref_mut_pair::RefMutPair;
pub use tree::Tree;
pub use vec_arena::{Unsupported, VecArena};
