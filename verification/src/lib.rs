//! A registry of entities addressed by generational handles, and a split
//! iterator that hands out one slot mutably while the others stay reachable.

pub mod entity;
pub mod iter;
pub mod laws;
pub mod list;
pub mod span;

pub use entity::{Entity, EntityEntry, EntityId};
pub use iter::{EntityDynIter, EntitySlice};
pub use list::EntityList;
