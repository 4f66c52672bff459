//! An embedded, transactional object store: typed binary objects, secondary
//! indexes with order-preserving keys, symmetric links and range queries,
//! all expressed over an ordered in-memory key/value model.

pub mod collection;
pub mod dump;
pub mod error;
pub mod hash;
pub mod index;
pub mod instance;
pub mod key;
pub mod link;
pub mod lmdb;
pub mod object;
pub mod order;
pub mod query;
pub mod raw_object_set;
pub mod schema;
pub mod store;
pub mod text;
pub mod txn;
