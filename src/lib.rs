//! Fallible, allocator-parameterised collections: a growable raw buffer and
//! an ordered B-tree map with an entry API. Every allocating operation
//! reports a declined allocation or an overflowing size computation as an
//! error value and leaves the collection as it was.
pub mod allocator;
pub mod raw_vec;
mod node;
pub mod order;
pub mod map;
pub mod entry;
