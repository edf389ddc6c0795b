//! A single-node message broker's core: the framed wire protocol, sharded
//! FIFO queues made durable by a write-ahead log and snapshots, the decisions
//! a connection makes on each frame, and the bounded submission queue of its
//! worker pool.
pub mod handler;
pub mod logger;
pub mod pool;
pub mod protocol;
pub mod shard;
pub mod sharded;
pub mod snapshot;
pub mod wal;
