//! A fixed-capacity store of entries reached through generational keys,
//! and a growable node manager with the same kind of keys.
pub mod cubby;
pub mod keys;
pub mod mutex;
pub mod rwlock;
mod random;

pub use cubby::{Cubby, CubbyModel, Eid, Ent, EntErr};
pub use keys::{Id, KeySize, Node, NodeId, NodeKey, NodeManager, NodeManagerModel, NodeView};
