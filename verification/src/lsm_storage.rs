//! The storage engine.
pub mod durability;
pub mod engine;
pub mod freezing;
pub mod laws;
pub mod newest;
pub mod read;
pub mod recovery;
pub mod sound;
pub mod state;

pub use crate::lsm_storage::engine::{Action, CompactionFilter, LsmStorageInner};
pub use crate::lsm_storage::state::{LsmStorageOptions, LsmStorageState, WriteBatchRecord};
