//! An embedded, in-memory, ordered key-value store with optimistic
//! transactions.
//!
//! The store keeps byte-string keys in byte-wise lexicographic order and
//! retains, for every key, the history of committed values together with the
//! sequence number of each commit.  On top of it sit:
//!
//! * snapshots: immutable read views fixed at a sequence number;
//! * optimistic transactions: a transaction buffers its writes in a local
//!   intent log, resolves its own reads against that log first, and validates
//!   at commit time that no key it wrote was committed by anyone else since it
//!   observed the key; on success the whole intent is applied atomically;
//! * savepoints: markers inside a transaction's intent log allowing partial
//!   rollback;
//! * merge operands: deferred, associative updates resolved by concatenation;
//! * column families: independently named keyspaces inside one store;
//! * iterators: cursors over a store or over a transaction's merged view.

pub mod bytes;
pub mod errors;
pub mod options;
pub mod store;
pub mod txn;
pub mod batch;
pub mod db;
pub mod snapshot;
pub mod iter;
pub mod laws;

pub use batch::WriteBatch;
pub use db::CfHandle;
pub use db::Db;
pub use errors::Error;
pub use iter::DbIterator;
pub use iter::Iter;
pub use snapshot::Snapshot;
pub use options::ColumnFamilyDescriptor;
pub use options::FullOptions;
pub use options::OptimisticTransactionOptions;
pub use options::Options;
pub use options::WriteOptions;
pub use store::Op;
pub use txn::Transaction;
