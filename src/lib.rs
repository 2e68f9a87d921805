//! A persistent key-value store kept in append-only log segments.
//!
//! The library decides and proves; the caller does the file and socket work.
//! `KvStore` holds the index and the accounting, tells the caller which
//! record to append for each operation and where to read a value, and plans
//! compaction; `codec` is the byte format of the records; `replay` rebuilds
//! the index from the segments when the store is opened.
pub mod codec;
pub mod command;
pub mod error;
pub mod index;
pub mod live;
pub mod engine;
pub mod replay;
pub mod generation;
pub mod protocol;
pub mod thread_pool;

pub use command::{Command, CommandPos};
pub use engine::{KvStore, COMPACTION_THRESHOLD};
pub use error::{KvsError, Result};
pub use protocol::{GetResponse, RemoveResponse, Request, SetResponse};
pub use thread_pool::NaiveThreadPool;
