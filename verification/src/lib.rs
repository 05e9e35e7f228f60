//! The in-memory core of a hybrid cache: records that count their handles, a doubly linked
//! list over a slab, the w-TinyLFU eviction policy, and the shard that keeps them together
//! under a weight budget.

pub mod dlist;
pub mod eviction;
pub mod fio;
pub mod generic;
pub mod indexer;
pub mod record;
pub mod waiters;
