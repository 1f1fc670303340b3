//! The store of the nodes, under the path that the writing half of the
//! index knows it by.

pub use crate::index::store::Store;
pub use crate::index::store::StoreLog;
