//! A write-optimized ordered key-value index organised as a buffered tree.
//!
//! Internal nodes batch pending messages and flush the largest cluster bound
//! for one child at a time; leaves hold the sorted key/value pairs. Every
//! node has a fixed little-endian byte encoding.

pub mod buf;
pub mod buf_order;
pub mod codec;
pub mod error;
pub mod index;
pub mod inner_layout;
pub mod intake;
pub mod internal;
pub mod layout;
pub mod leaf;
pub mod message;
pub mod mode;
pub mod node;
pub mod operation;
pub mod order;
pub mod ownmessage;
pub mod pending;
pub mod readleaf;
pub mod search;
pub mod store;
pub mod transaction;
pub mod tree;
pub mod util;
pub mod writeinternal;
pub mod writeleaf;
